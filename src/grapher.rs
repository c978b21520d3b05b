//! Renders, as an indented tree, every chain of consumers through which a
//! package is pulled into a graph.
use crate::ident::{compare_str, lemma_seq_cmp, lemma_seq_cmp_trans, seq_cmp, Kid};
use crate::krates::{DepKind, Edge, Krate, Krates};
use vstd::prelude::*;
use vstd::seq_lib::lemma_multiset_commutative;

verus! {

broadcast use vstd::seq_lib::group_to_multiset_ensures;

/// Why a graph could not be rendered.
#[derive(Clone, Copy, PartialEq, Eq, Structural, Debug)]
pub enum GraphError {
    /// The requested package is not a node of the graph
    NodeNotFound,
}

/// The number of unvisited nodes.
pub open spec fn count_unvisited(s: Seq<bool>) -> nat
    decreases s.len(),
{
    if s.len() == 0 {
        0
    } else {
        count_unvisited(s.drop_last()) + if s.last() {
            0nat
        } else {
            1nat
        }
    }
}

proof fn lemma_visit(s: Seq<bool>, i: int)
    requires
        0 <= i < s.len(),
        !s[i],
    ensures
        count_unvisited(s.update(i, true)) + 1 == count_unvisited(s),
    decreases s.len(),
{
    if i < s.len() - 1 {
        lemma_visit(s.drop_last(), i);
        assert(s.update(i, true).drop_last() =~= s.drop_last().update(i, true));
    } else {
        assert(s.update(i, true).drop_last() =~= s.drop_last());
    }
}

/// The rails drawn for the ancestors of a node: a bar where that ancestor
/// still has siblings to come, else blank.
pub open spec fn rails(levels: Seq<bool>) -> Seq<char>
    decreases levels.len(),
{
    if levels.len() == 0 {
        seq![]
    } else {
        rails(levels.drop_last()) + if levels.last() {
            "│   "@
        } else {
            "    "@
        }
    }
}

/// What precedes a node's label: the rails of its ancestors and its own
/// connector, a branch if siblings follow, else a corner.
pub open spec fn indent(levels: Seq<bool>) -> Seq<char> {
    if levels.len() == 0 {
        seq![]
    } else {
        rails(levels.drop_last()) + if levels.last() {
            "├── "@
        } else {
            "└── "@
        }
    }
}

/// The marker of an edge kind before a label.
pub open spec fn kind_tag(kind: DepKind) -> Seq<char> {
    match kind {
        DepKind::Normal => ""@,
        DepKind::Dev => "(dev) "@,
        DepKind::Build => "(build) "@,
    }
}

/// The line printed for a package reached through an edge of `kind`, with
/// the revisit marker when it was expanded before.
pub open spec fn node_line(levels: Seq<bool>, k: Krate, kind: DepKind, revisit: bool) -> Seq<
    char,
> {
    indent(levels) + kind_tag(kind) + k.name@ + " v"@ + k.version@ + (if revisit {
        " (*)"@
    } else {
        ""@
    }) + "\n"@
}

/// A node to print, with the kind of the edge it was reached through.
#[derive(Clone, Copy, Debug)]
pub struct NodePrint {
    pub id: usize,
    pub kind: DepKind,
}

/// The consumers of node `id` along `edges`, in edge order.
pub open spec fn incoming(edges: Seq<Edge>, id: usize) -> Seq<NodePrint>
    decreases edges.len(),
{
    if edges.len() == 0 {
        seq![]
    } else {
        let e = edges.last();
        incoming(edges.drop_last(), id) + if e.to == id {
            seq![NodePrint { id: e.from, kind: e.kind }]
        } else {
            seq![]
        }
    }
}

/// The rank of an edge kind, which orders consumers with the same identifier.
pub open spec fn kind_rank(k: DepKind) -> int {
    match k {
        DepKind::Normal => 0,
        DepKind::Dev => 1,
        DepKind::Build => 2,
    }
}

/// The order of consumers: by package identifier, then by edge kind.
pub open spec fn np_cmp(ks: Seq<Krate>, a: NodePrint, b: NodePrint) -> int {
    let c = seq_cmp(ks[a.id as int].id.repr@, ks[b.id as int].id.repr@);
    if c != 0 {
        c
    } else {
        kind_rank(a.kind) - kind_rank(b.kind)
    }
}

/// `s` with `x` placed after every element that does not follow it.
pub open spec fn sorted_insert(ks: Seq<Krate>, s: Seq<NodePrint>, x: NodePrint) -> Seq<NodePrint>
    decreases s.len(),
{
    if s.len() == 0 {
        seq![x]
    } else if np_cmp(ks, s[0], x) > 0 {
        seq![x] + s
    } else {
        seq![s[0]] + sorted_insert(ks, s.drop_first(), x)
    }
}

/// `s` sorted stably by `np_cmp`.
pub open spec fn sort_nodes(ks: Seq<Krate>, s: Seq<NodePrint>) -> Seq<NodePrint>
    decreases s.len(),
{
    if s.len() == 0 {
        seq![]
    } else {
        sorted_insert(ks, sort_nodes(ks, s.drop_last()), s.last())
    }
}

/// The consumers of node `id` in the order they are printed.
pub open spec fn parents_of(g: Krates, id: usize) -> Seq<NodePrint> {
    sort_nodes(g.krates@, incoming(g.edges@, id))
}

/// The text printed for node `np` under ancestors `levels`, and the visited
/// set afterwards: a node seen before gets its line with the revisit marker;
/// otherwise its line, then the subtrees of its consumers. `fuel` bounds the
/// depth and is never exhausted when it is at least the number of unvisited
/// nodes.
pub open spec fn render(
    g: Krates,
    fuel: nat,
    np: NodePrint,
    visited: Seq<bool>,
    levels: Seq<bool>,
) -> (Seq<char>, Seq<bool>)
    decreases fuel, 0nat, 0nat,
{
    let k = g.krates@[np.id as int];
    if visited[np.id as int] {
        (node_line(levels, k, np.kind, true), visited)
    } else if fuel == 0 {
        (node_line(levels, k, np.kind, false), visited.update(np.id as int, true))
    } else {
        let rest = render_list(
            g,
            (fuel - 1) as nat,
            parents_of(g, np.id),
            0,
            visited.update(np.id as int, true),
            levels,
        );
        (node_line(levels, k, np.kind, false) + rest.0, rest.1)
    }
}

/// The subtrees of `ps[i..]`, printed one after the other.
pub open spec fn render_list(
    g: Krates,
    fuel: nat,
    ps: Seq<NodePrint>,
    i: int,
    visited: Seq<bool>,
    levels: Seq<bool>,
) -> (Seq<char>, Seq<bool>)
    decreases fuel, 1nat, ps.len() - i,
{
    if i < 0 || i >= ps.len() {
        (seq![], visited)
    } else {
        let first = render(g, fuel, ps[i], visited, levels.push(i < ps.len() - 1));
        let rest = render_list(g, fuel, ps, i + 1, first.1, levels);
        (first.0 + rest.0, rest.1)
    }
}

/// The whole tree printed for node `id` of `g`.
pub open spec fn tree_text(g: Krates, id: usize) -> Seq<char> {
    render(
        g,
        g.krates@.len(),
        NodePrint { id, kind: DepKind::Normal },
        Seq::new(g.krates@.len(), |i: int| false),
        seq![],
    ).0
}

proof fn lemma_insert_at(ks: Seq<Krate>, s: Seq<NodePrint>, x: NodePrint, p: int)
    requires
        0 <= p <= s.len(),
        forall|j: int| 0 <= j < p ==> np_cmp(ks, #[trigger] s[j], x) <= 0,
        p < s.len() ==> np_cmp(ks, s[p], x) > 0,
    ensures
        sorted_insert(ks, s, x) == s.take(p).push(x) + s.skip(p),
    decreases s.len(),
{
    if s.len() == 0 {
        assert(s.take(p).push(x) + s.skip(p) =~= seq![x]);
    } else if p == 0 {
        assert(s.take(p).push(x) + s.skip(p) =~= seq![x] + s);
    } else {
        let t = s.drop_first();
        assert forall|j: int| 0 <= j < p - 1 implies np_cmp(ks, #[trigger] t[j], x) <= 0 by {
            assert(t[j] == s[j + 1]);
        }
        lemma_insert_at(ks, t, x, p - 1);
        assert(s.take(p).push(x) + s.skip(p) =~= seq![s[0]] + (t.take(p - 1).push(x) + t.skip(
            p - 1,
        )));
    }
}

/// Renders the inverted dependency tree of a package.
pub struct Grapher<'a> {
    krates: &'a Krates,
}

/// Compares two consumers: by package identifier, then by edge kind.
fn compare_nodes(ks: &Vec<Krate>, a: NodePrint, b: NodePrint) -> (r: bool)
    requires
        a.id < ks@.len(),
        b.id < ks@.len(),
    ensures
        r == (np_cmp(ks@, a, b) > 0),
{
    match compare_str(ks[a.id].id.repr.as_str(), ks[b.id].id.repr.as_str()) {
        std::cmp::Ordering::Less => false,
        std::cmp::Ordering::Greater => true,
        std::cmp::Ordering::Equal => {
            let ra: u8 = match a.kind {
                DepKind::Normal => 0,
                DepKind::Dev => 1,
                DepKind::Build => 2,
            };
            let rb: u8 = match b.kind {
                DepKind::Normal => 0,
                DepKind::Dev => 1,
                DepKind::Build => 2,
            };
            ra > rb
        },
    }
}

impl<'a> Grapher<'a> {
    /// A grapher over `krates`.
    pub fn new(krates: &'a Krates) -> (r: Self)
        ensures
            r.krates() == krates,
    {
        Self { krates }
    }

    /// The graph rendered.
    pub closed spec fn krates(&self) -> &'a Krates {
        self.krates
    }

    /// Renders every chain of consumers that pulls in the package `id`: the
    /// package itself on the first line, then its consumers sorted by package
    /// identifier, each followed by its own consumers. A package already
    /// expanded is printed again with ` (*)` and not expanded twice.
    pub fn write_graph(&mut self, id: &Kid) -> (r: Result<String, GraphError>)
        requires
            old(self).krates().wf(),
        ensures
            final(self).krates() == old(self).krates(),
            r is Err <==> forall|i: int|
                0 <= i < old(self).krates().krates@.len()
                    ==> #[trigger] old(self).krates().krates@[i].id.repr@ != id.repr@,
            r matches Ok(out) ==> exists|i: int|
                0 <= i < old(self).krates().krates@.len() && old(self).krates().krates@[i].id.repr@
                    == id.repr@ && out@ == tree_text(*old(self).krates(), i as usize),
    {
        let node_id = match self.krates.nid_for_kid(id) {
            Some(n) => n,
            None => {
                return Err(GraphError::NodeNotFound);
            },
        };
        let mut out = String::new();
        let mut levels: Vec<bool> = Vec::new();
        let mut visited: Vec<bool> = Vec::new();
        let mut i: usize = 0;
        while i < self.krates.len()
            invariant
                i <= self.krates.krates@.len(),
                visited@ == Seq::new(i as nat, |j: int| false),
            decreases self.krates.krates@.len() - i,
        {
            visited.push(false);
            i = i + 1;
            proof {
                assert(visited@ =~= Seq::new(i as nat, |j: int| false));
            }
        }
        let np = NodePrint { id: node_id, kind: DepKind::Normal };
        proof {
            lemma_count_le_len(visited@);
            assert(levels@ =~= Seq::<bool>::empty());
            assert(out@ =~= Seq::<char>::empty());
        }
        let ghost n = visited@.len();
        self.write_parent(np, &mut out, &mut visited, &mut levels, Ghost(n));
        proof {
            assert(out@ =~= tree_text(*self.krates, node_id));
        }
        Ok(out)
    }

    /// Prints the line of `np` and, on its first visit, the subtrees of its consumers.
    #[verifier::rlimit(40)]
    fn write_parent(
        &self,
        np: NodePrint,
        out: &mut String,
        visited: &mut Vec<bool>,
        levels_continue: &mut Vec<bool>,
        fuel: Ghost<nat>,
    )
        requires
            self.krates.wf(),
            old(visited)@.len() == self.krates.krates@.len(),
            np.id < self.krates.krates@.len(),
            count_unvisited(old(visited)@) <= fuel@,
        ensures
            final(visited)@.len() == old(visited)@.len(),
            count_unvisited(final(visited)@) <= count_unvisited(old(visited)@),
            final(levels_continue)@ == old(levels_continue)@,
            final(out)@ == old(out)@ + render(
                *self.krates,
                fuel@,
                np,
                old(visited)@,
                old(levels_continue)@,
            ).0,
            final(visited)@ == render(
                *self.krates,
                fuel@,
                np,
                old(visited)@,
                old(levels_continue)@,
            ).1,
        decreases fuel@, 0nat,
    {
        let ghost out0 = out@;
        let ghost levels0 = levels_continue@;
        let ghost visited0 = visited@;
        let revisit = visited[np.id];
        let krate = &self.krates.krates[np.id];
        let n = levels_continue.len();
        if n > 0 {
            let last = n - 1;
            let mut j: usize = 0;
            while j < last
                invariant
                    levels_continue@ == levels0,
                    n == levels0.len(),
                    last == n - 1,
                    j <= last,
                    out@ == out0 + rails(levels0.take(j as int)),
                decreases last - j,
            {
                if levels_continue[j] {
                    out.append("│   ");
                } else {
                    out.append("    ");
                }
                proof {
                    assert(levels0.take(j + 1).drop_last() =~= levels0.take(j as int));
                }
                j = j + 1;
            }
            if levels_continue[last] {
                out.append("├── ");
            } else {
                out.append("└── ");
            }
        }
        proof {
            reveal_strlit("");
            if n > 0 {
                assert(levels0.take(n - 1) =~= levels0.drop_last());
            }
            assert(out@ =~= out0 + indent(levels0));
        }
        let ghost with_indent = out@;
        match np.kind {
            DepKind::Normal => {},
            DepKind::Dev => out.append("(dev) "),
            DepKind::Build => out.append("(build) "),
        }
        proof {
            assert(out@ =~= with_indent + kind_tag(np.kind));
        }
        out.append(krate.name.as_str());
        out.append(" v");
        out.append(krate.version.as_str());
        if revisit {
            out.append(" (*)");
        } else {
            out.append("");
        }
        out.append("\n");
        let ghost line = node_line(levels0, self.krates.krates@[np.id as int], np.kind, revisit);
        proof {
            assert(out@ =~= out0 + line);
        }
        if revisit {
            return;
        }
        proof {
            lemma_visit(visited@, np.id as int);
        }
        visited.set(np.id, true);
        let ghost printed = out@;
        let ghost v1 = visited@;
        let parents = self.parents(np.id);
        if parents.len() > 0 {
            self.write_parents(&parents, out, visited, levels_continue, Ghost((fuel@ - 1) as nat));
        }
        proof {
            let rest = render_list(*self.krates, (fuel@ - 1) as nat, parents@, 0, v1, levels0);
            assert(out@ =~= printed + rest.0);
            assert(out@ =~= out0 + (line + rest.0));
        }
    }

    /// The consumers of node `id`, in the order they are printed.
    fn parents(&self, id: usize) -> (r: Vec<NodePrint>)
        requires
            self.krates.wf(),
        ensures
            r@ == parents_of(*self.krates, id),
            forall|i: int| 0 <= i < r@.len() ==> #[trigger] r@[i].id < self.krates.krates@.len(),
    {
        let ghost ks = self.krates.krates@;
        let ghost edges = self.krates.edges@;
        let mut sorted: Vec<NodePrint> = Vec::new();
        let mut e: usize = 0;
        proof {
            assert(edges.take(0) =~= Seq::<Edge>::empty());
        }
        while e < self.krates.edges.len()
            invariant
                self.krates.wf(),
                ks == self.krates.krates@,
                edges == self.krates.edges@,
                e <= edges.len(),
                sorted@ == sort_nodes(ks, incoming(edges.take(e as int), id)),
                forall|i: int| 0 <= i < sorted@.len() ==> #[trigger] sorted@[i].id < ks.len(),
            decreases edges.len() - e,
        {
            let edge = self.krates.edges[e];
            proof {
                assert(edges.take(e + 1).drop_last() =~= edges.take(e as int));
            }
            if edge.to == id {
                let np = NodePrint { id: edge.from, kind: edge.kind };
                let mut p: usize = 0;
                while p < sorted.len() && !compare_nodes(&self.krates.krates, sorted[p], np)
                    invariant
                        p <= sorted@.len(),
                        np.id < ks.len(),
                        ks == self.krates.krates@,
                        forall|i: int| 0 <= i < sorted@.len() ==> #[trigger] sorted@[i].id < ks.len(),
                        forall|j: int| 0 <= j < p ==> np_cmp(ks, #[trigger] sorted@[j], np) <= 0,
                    decreases sorted@.len() - p,
                {
                    p = p + 1;
                }
                proof {
                    lemma_insert_at(ks, sorted@, np, p as int);
                    let inc = incoming(edges.take(e as int), id);
                    assert(incoming(edges.take(e + 1), id) =~= inc.push(np));
                    assert(inc.push(np).drop_last() =~= inc);
                }
                sorted.insert(p, np);
                proof {
                    assert(sorted@ =~= sort_nodes(ks, incoming(edges.take(e + 1), id)));
                }
            } else {
                proof {
                    let inc = incoming(edges.take(e as int), id);
                    assert(incoming(edges.take(e + 1), id) =~= inc);
                }
            }
            e = e + 1;
        }
        proof {
            assert(edges.take(edges.len() as int) =~= edges);
        }
        sorted
    }

    /// Prints the subtree of each consumer in `parents`, in order.
    fn write_parents(
        &self,
        parents: &Vec<NodePrint>,
        out: &mut String,
        visited: &mut Vec<bool>,
        levels_continue: &mut Vec<bool>,
        fuel: Ghost<nat>,
    )
        requires
            self.krates.wf(),
            old(visited)@.len() == self.krates.krates@.len(),
            parents@.len() > 0,
            forall|i: int| 0 <= i < parents@.len() ==> #[trigger] parents@[i].id < self.krates.krates@.len(),
            count_unvisited(old(visited)@) <= fuel@,
        ensures
            final(visited)@.len() == old(visited)@.len(),
            count_unvisited(final(visited)@) <= count_unvisited(old(visited)@),
            final(levels_continue)@ == old(levels_continue)@,
            final(out)@ == old(out)@ + render_list(
                *self.krates,
                fuel@,
                parents@,
                0,
                old(visited)@,
                old(levels_continue)@,
            ).0,
            final(visited)@ == render_list(
                *self.krates,
                fuel@,
                parents@,
                0,
                old(visited)@,
                old(levels_continue)@,
            ).1,
        decreases fuel@, 1nat,
    {
        let ghost out0 = out@;
        let ghost levels0 = levels_continue@;
        let ghost whole = render_list(*self.krates, fuel@, parents@, 0, visited@, levels0);
        let ghost c0 = count_unvisited(visited@);
        let cont = parents.len() - 1;
        let mut i: usize = 0;
        while i < parents.len()
            invariant
                self.krates.wf(),
                cont == parents@.len() - 1,
                i <= parents@.len(),
                visited@.len() == self.krates.krates@.len(),
                count_unvisited(visited@) <= c0,
                c0 <= fuel@,
                levels_continue@ == levels0,
                forall|k: int| 0 <= k < parents@.len() ==> #[trigger] parents@[k].id < self.krates.krates@.len(),
                out@ + render_list(*self.krates, fuel@, parents@, i as int, visited@, levels0).0
                    == out0 + whole.0,
                render_list(*self.krates, fuel@, parents@, i as int, visited@, levels0).1
                    == whole.1,
            decreases parents@.len() - i,
        {
            let parent = parents[i];
            let ghost before = out@;
            let ghost vb = visited@;
            levels_continue.push(i < cont);
            self.write_parent(parent, out, visited, levels_continue, fuel);
            levels_continue.pop();
            proof {
                assert(levels_continue@ =~= levels0);
                let first = render(*self.krates, fuel@, parent, vb, levels0.push(i < cont));
                let rest = render_list(*self.krates, fuel@, parents@, i + 1, first.1, levels0);
                assert(before + (first.0 + rest.0) =~= out@ + rest.0);
            }
            i = i + 1;
        }
        proof {
            assert(out@ =~= out@ + Seq::<char>::empty());
        }
    }
}

proof fn lemma_count_le_len(s: Seq<bool>)
    ensures
        count_unvisited(s) <= s.len(),
    decreases s.len(),
{
    if s.len() > 0 {
        lemma_count_le_len(s.drop_last());
    }
}

/// A package already expanded is printed once more with the revisit marker
/// and nothing below it, so a cycle or a shared consumer is never expanded twice.
pub proof fn lemma_revisit_not_expanded(
    g: Krates,
    fuel: nat,
    np: NodePrint,
    visited: Seq<bool>,
    levels: Seq<bool>,
)
    requires
        0 <= np.id < visited.len(),
        visited[np.id as int],
    ensures
        render(g, fuel, np, visited, levels) == (
        node_line(levels, g.krates@[np.id as int], np.kind, true),
        visited,
        ),
{
}

/// No two packages of the list share an identifier.
pub open spec fn kids_unique(ks: Seq<Krate>) -> bool {
    forall|i: int, j: int|
        0 <= i < j < ks.len() ==> #[trigger] ks[i].id.repr@ != #[trigger] ks[j].id.repr@
}

/// Each element is ordered at most as every later one.
pub open spec fn sorted_nodes(ks: Seq<Krate>, t: Seq<NodePrint>) -> bool {
    forall|i: int, j: int| 0 <= i < j < t.len() ==> np_cmp(ks, #[trigger] t[i], #[trigger] t[j]) <= 0
}

proof fn lemma_np_cmp(ks: Seq<Krate>, a: NodePrint, b: NodePrint)
    ensures
        np_cmp(ks, a, b) == -np_cmp(ks, b, a),
        kids_unique(ks) && a.id < ks.len() && b.id < ks.len() && np_cmp(ks, a, b) == 0 ==> a == b,
{
    lemma_seq_cmp(ks[a.id as int].id.repr@, ks[b.id as int].id.repr@);
    if kids_unique(ks) && a.id < ks.len() && b.id < ks.len() && np_cmp(ks, a, b) == 0 {
        if a.id < b.id {
            assert(ks[a.id as int].id.repr@ != ks[b.id as int].id.repr@);
        } else if b.id < a.id {
            assert(ks[b.id as int].id.repr@ != ks[a.id as int].id.repr@);
        }
    }
}

proof fn lemma_np_trans(ks: Seq<Krate>, a: NodePrint, b: NodePrint, c: NodePrint)
    requires
        np_cmp(ks, a, b) <= 0,
        np_cmp(ks, b, c) <= 0,
    ensures
        np_cmp(ks, a, c) <= 0,
{
    let (ka, kb, kc) = (
        ks[a.id as int].id.repr@,
        ks[b.id as int].id.repr@,
        ks[c.id as int].id.repr@,
    );
    lemma_seq_cmp(ka, kb);
    lemma_seq_cmp(kb, kc);
    lemma_seq_cmp(ka, kc);
    lemma_seq_cmp_trans(ka, kb, kc);
}

proof fn lemma_insert_multiset(ks: Seq<Krate>, t: Seq<NodePrint>, x: NodePrint)
    ensures
        sorted_insert(ks, t, x).to_multiset() == t.to_multiset().insert(x),
    decreases t.len(),
{
    broadcast use vstd::multiset::group_multiset_axioms;

    if t.len() == 0 {
        assert(seq![x] =~= Seq::<NodePrint>::empty().push(x));
        assert(sorted_insert(ks, t, x).to_multiset() =~= t.to_multiset().insert(x));
    } else {
        assert(seq![x] =~= Seq::<NodePrint>::empty().push(x));
        assert(seq![t[0]] =~= Seq::<NodePrint>::empty().push(t[0]));
        assert(t =~= seq![t[0]] + t.drop_first());
        lemma_multiset_commutative(seq![t[0]], t.drop_first());
        if np_cmp(ks, t[0], x) > 0 {
            lemma_multiset_commutative(seq![x], t);
            assert(sorted_insert(ks, t, x).to_multiset() =~= t.to_multiset().insert(x));
        } else {
            lemma_insert_multiset(ks, t.drop_first(), x);
            lemma_multiset_commutative(seq![t[0]], sorted_insert(ks, t.drop_first(), x));
            assert(sorted_insert(ks, t, x).to_multiset() =~= t.to_multiset().insert(x));
        }
    }
}

proof fn lemma_sort_multiset(ks: Seq<Krate>, s: Seq<NodePrint>)
    ensures
        sort_nodes(ks, s).to_multiset() == s.to_multiset(),
    decreases s.len(),
{
    if s.len() > 0 {
        lemma_sort_multiset(ks, s.drop_last());
        lemma_insert_multiset(ks, sort_nodes(ks, s.drop_last()), s.last());
        assert(s =~= s.drop_last().push(s.last()));
    }
}

proof fn lemma_insert_sorted(ks: Seq<Krate>, t: Seq<NodePrint>, x: NodePrint)
    requires
        sorted_nodes(ks, t),
    ensures
        sorted_nodes(ks, sorted_insert(ks, t, x)),
    decreases t.len(),
{
    broadcast use vstd::multiset::group_multiset_axioms;

    let r = sorted_insert(ks, t, x);
    if t.len() == 0 {
    } else if np_cmp(ks, t[0], x) > 0 {
        assert forall|i: int, j: int| 0 <= i < j < r.len() implies np_cmp(
            ks,
            #[trigger] r[i],
            #[trigger] r[j],
        ) <= 0 by {
            if i == 0 {
                lemma_np_cmp(ks, t[0], x);
                if j > 1 {
                    lemma_np_trans(ks, x, t[0], t[j - 1]);
                }
            } else {
                assert(r[i] == t[i - 1] && r[j] == t[j - 1]);
            }
        }
    } else {
        let t1 = t.drop_first();
        let r1 = sorted_insert(ks, t1, x);
        lemma_insert_sorted(ks, t1, x);
        lemma_insert_multiset(ks, t1, x);
        assert forall|i: int, j: int| 0 <= i < j < r.len() implies np_cmp(
            ks,
            #[trigger] r[i],
            #[trigger] r[j],
        ) <= 0 by {
            if i == 0 {
                let y = r1[j - 1];
                assert(r[j] == y);
                assert(r1.contains(y));
                assert(r1.to_multiset().count(y) > 0);
                if y != x {
                    assert(t1.to_multiset().count(y) > 0);
                    assert(t1.contains(y));
                    let m = choose|m: int| 0 <= m < t1.len() && t1[m] == y;
                    assert(t[m + 1] == y);
                }
            } else {
                assert(r[i] == r1[i - 1] && r[j] == r1[j - 1]);
            }
        }
    }
}

proof fn lemma_sort_sorted(ks: Seq<Krate>, s: Seq<NodePrint>)
    ensures
        sorted_nodes(ks, sort_nodes(ks, s)),
    decreases s.len(),
{
    if s.len() > 0 {
        lemma_sort_sorted(ks, s.drop_last());
        lemma_insert_sorted(ks, sort_nodes(ks, s.drop_last()), s.last());
    }
}

proof fn lemma_sorted_unique(ks: Seq<Krate>, t1: Seq<NodePrint>, t2: Seq<NodePrint>)
    requires
        kids_unique(ks),
        sorted_nodes(ks, t1),
        sorted_nodes(ks, t2),
        t1.to_multiset() == t2.to_multiset(),
        forall|i: int| 0 <= i < t1.len() ==> #[trigger] t1[i].id < ks.len(),
        forall|i: int| 0 <= i < t2.len() ==> #[trigger] t2[i].id < ks.len(),
    ensures
        t1 == t2,
    decreases t1.len(),
{
    broadcast use vstd::multiset::group_multiset_axioms;

    assert(t1.len() == t1.to_multiset().len());
    assert(t2.len() == t2.to_multiset().len());
    if t1.len() == 0 {
        assert(t1 =~= t2);
    } else {
        let (a, b) = (t1[0], t2[0]);
        assert(t1.to_multiset().count(a) > 0);
        assert(t2.contains(a));
        let j = choose|j: int| 0 <= j < t2.len() && t2[j] == a;
        assert(t2.to_multiset().count(b) > 0);
        assert(t1.contains(b));
        let i = choose|i: int| 0 <= i < t1.len() && t1[i] == b;
        lemma_np_cmp(ks, a, a);
        lemma_np_cmp(ks, b, b);
        assert(np_cmp(ks, b, a) <= 0) by {
            if j > 0 {
                assert(np_cmp(ks, t2[0], t2[j]) <= 0);
            }
        }
        assert(np_cmp(ks, a, b) <= 0) by {
            if i > 0 {
                assert(np_cmp(ks, t1[0], t1[i]) <= 0);
            }
        }
        lemma_np_cmp(ks, a, b);
        assert(a == b);
        let (u1, u2) = (t1.drop_first(), t2.drop_first());
        assert(u1 =~= t1.remove(0));
        assert(u2 =~= t2.remove(0));
        assert forall|x: int, y: int| 0 <= x < y < u1.len() implies np_cmp(
            ks,
            #[trigger] u1[x],
            #[trigger] u1[y],
        ) <= 0 by {
            assert(u1[x] == t1[x + 1] && u1[y] == t1[y + 1]);
        }
        assert forall|x: int, y: int| 0 <= x < y < u2.len() implies np_cmp(
            ks,
            #[trigger] u2[x],
            #[trigger] u2[y],
        ) <= 0 by {
            assert(u2[x] == t2[x + 1] && u2[y] == t2[y + 1]);
        }
        assert forall|x: int| 0 <= x < u1.len() implies #[trigger] u1[x].id < ks.len() by {
            assert(u1[x] == t1[x + 1]);
        }
        assert forall|x: int| 0 <= x < u2.len() implies #[trigger] u2[x].id < ks.len() by {
            assert(u2[x] == t2[x + 1]);
        }
        lemma_sorted_unique(ks, u1, u2);
        assert(t1.len() == t2.len());
        assert forall|k: int| 0 <= k < t1.len() implies t1[k] == t2[k] by {
            if k > 0 {
                assert(t1[k] == u1[k - 1]);
                assert(t2[k] == u2[k - 1]);
            }
        }
        assert(t1 =~= t2);
    }
}

/// The consumers contributed by edge `e` to node `id`.
spec fn edge_share(e: Edge, id: usize) -> Seq<NodePrint> {
    if e.to == id {
        seq![NodePrint { id: e.from, kind: e.kind }]
    } else {
        seq![]
    }
}

proof fn lemma_incoming_remove(s: Seq<Edge>, j: int, id: usize)
    requires
        0 <= j < s.len(),
    ensures
        incoming(s, id).to_multiset() == incoming(s.remove(j), id).to_multiset().add(
            edge_share(s[j], id).to_multiset(),
        ),
    decreases s.len(),
{
    broadcast use vstd::multiset::group_multiset_axioms;

    let last = s.last();
    assert(incoming(s, id) == incoming(s.drop_last(), id) + edge_share(last, id));
    lemma_multiset_commutative(incoming(s.drop_last(), id), edge_share(last, id));
    if j == s.len() - 1 {
        assert(s.remove(j) =~= s.drop_last());
    } else {
        let r = s.remove(j);
        assert(r.drop_last() =~= s.drop_last().remove(j));
        assert(r.last() == last);
        lemma_incoming_remove(s.drop_last(), j, id);
        assert(incoming(r, id) == incoming(r.drop_last(), id) + edge_share(last, id));
        lemma_multiset_commutative(incoming(r.drop_last(), id), edge_share(last, id));
        assert(incoming(s, id).to_multiset() =~= incoming(r, id).to_multiset().add(
            edge_share(s[j], id).to_multiset(),
        ));
    }
}

proof fn lemma_incoming_perm(e1: Seq<Edge>, e2: Seq<Edge>, id: usize)
    requires
        e1.to_multiset() == e2.to_multiset(),
    ensures
        incoming(e1, id).to_multiset() == incoming(e2, id).to_multiset(),
    decreases e1.len(),
{
    broadcast use vstd::multiset::group_multiset_axioms;

    assert(e1.len() == e1.to_multiset().len());
    assert(e2.len() == e2.to_multiset().len());
    if e1.len() == 0 {
        assert(e2 =~= e1);
    } else {
        let x = e1.last();
        assert(e1 =~= e1.drop_last().push(x));
        assert(e2.to_multiset().count(x) > 0);
        assert(e2.contains(x));
        let j = choose|j: int| 0 <= j < e2.len() && e2[j] == x;
        assert(e2.remove(j).to_multiset() =~= e1.drop_last().to_multiset());
        lemma_incoming_perm(e1.drop_last(), e2.remove(j), id);
        lemma_incoming_remove(e2, j, id);
        assert(incoming(e1, id) == incoming(e1.drop_last(), id) + edge_share(x, id));
        lemma_multiset_commutative(incoming(e1.drop_last(), id), edge_share(x, id));
    }
}

proof fn lemma_incoming_ids(g: Krates, edges: Seq<Edge>, id: usize)
    requires
        forall|e: int|
            0 <= e < edges.len() ==> #[trigger] edges[e].from < g.krates@.len(),
    ensures
        forall|i: int|
            0 <= i < incoming(edges, id).len() ==> #[trigger] incoming(edges, id)[i].id
                < g.krates@.len(),
    decreases edges.len(),
{
    if edges.len() > 0 {
        lemma_incoming_ids(g, edges.drop_last(), id);
    }
}

proof fn lemma_parents_ids(g: Krates, id: usize)
    requires
        g.wf(),
    ensures
        forall|i: int|
            0 <= i < parents_of(g, id).len() ==> #[trigger] parents_of(g, id)[i].id
                < g.krates@.len(),
{
    let inc = incoming(g.edges@, id);
    let p = parents_of(g, id);
    lemma_incoming_ids(g, g.edges@, id);
    lemma_sort_multiset(g.krates@, inc);
    assert forall|i: int| 0 <= i < p.len() implies #[trigger] p[i].id < g.krates@.len() by {
        assert(p.to_multiset().count(p[i]) > 0);
        assert(inc.contains(p[i]));
    }
}

proof fn lemma_render_same(
    g1: Krates,
    g2: Krates,
    fuel: nat,
    np: NodePrint,
    visited: Seq<bool>,
    levels: Seq<bool>,
)
    requires
        g1.krates@ == g2.krates@,
        forall|n: usize| #[trigger] parents_of(g1, n) == parents_of(g2, n),
    ensures
        render(g1, fuel, np, visited, levels) == render(g2, fuel, np, visited, levels),
    decreases fuel, 0nat, 0nat,
{
    if !visited[np.id as int] && fuel > 0 {
        assert(parents_of(g1, np.id) == parents_of(g2, np.id));
        lemma_render_list_same(
            g1,
            g2,
            (fuel - 1) as nat,
            parents_of(g1, np.id),
            0,
            visited.update(np.id as int, true),
            levels,
        );
    }
}

proof fn lemma_render_list_same(
    g1: Krates,
    g2: Krates,
    fuel: nat,
    ps: Seq<NodePrint>,
    i: int,
    visited: Seq<bool>,
    levels: Seq<bool>,
)
    requires
        g1.krates@ == g2.krates@,
        forall|n: usize| #[trigger] parents_of(g1, n) == parents_of(g2, n),
    ensures
        render_list(g1, fuel, ps, i, visited, levels) == render_list(
            g2,
            fuel,
            ps,
            i,
            visited,
            levels,
        ),
    decreases fuel, 1nat, ps.len() - i,
{
    if 0 <= i < ps.len() {
        let lv = levels.push(i < ps.len() - 1);
        lemma_render_same(g1, g2, fuel, ps[i], visited, lv);
        let first = render(g1, fuel, ps[i], visited, lv);
        lemma_render_list_same(g1, g2, fuel, ps, i + 1, first.1, levels);
    }
}

/// The tree printed does not depend on the order in which the graph lists
/// its edges: two graphs with the same packages (no two sharing an
/// identifier) and the same edges in any order print the same tree.
pub proof fn lemma_edge_order_irrelevant(g1: Krates, g2: Krates, id: usize)
    requires
        g1.wf(),
        g2.wf(),
        g1.krates@ == g2.krates@,
        kids_unique(g1.krates@),
        g1.edges@.to_multiset() == g2.edges@.to_multiset(),
    ensures
        tree_text(g1, id) == tree_text(g2, id),
{
    let ks = g1.krates@;
    assert forall|n: usize| #[trigger] parents_of(g1, n) == parents_of(g2, n) by {
        let (i1, i2) = (incoming(g1.edges@, n), incoming(g2.edges@, n));
        lemma_incoming_perm(g1.edges@, g2.edges@, n);
        lemma_sort_multiset(ks, i1);
        lemma_sort_multiset(ks, i2);
        lemma_sort_sorted(ks, i1);
        lemma_sort_sorted(ks, i2);
        lemma_parents_ids(g1, n);
        lemma_parents_ids(g2, n);
        lemma_sorted_unique(ks, parents_of(g1, n), parents_of(g2, n));
    }
    lemma_render_same(
        g1,
        g2,
        ks.len(),
        NodePrint { id, kind: DepKind::Normal },
        Seq::new(ks.len(), |i: int| false),
        seq![],
    );
}

} // verus!
