//! The fragment graph: every distinct fragment met during one decomposition,
//! with the edges from each fragment to the pieces it was cleaved into.
//!
//! Fragments live in an arena and are named by their place in it; the
//! molecule that was decomposed is at place 0. A fragment that several
//! cleavages produce is stored once and has several parents.

use vstd::hash_map::StringHashMap;
use vstd::prelude::*;

verus! {

/// One fragment of the graph.
pub struct FragmentNode<S> {
    identity: String,
    structure: Option<S>,
    children: Vec<usize>,
    parents: Vec<usize>,
}

/// What a fragment node holds, as plain mathematical values.
pub struct NodeView<S> {
    /// The canonical identity string of the fragment.
    pub identity: Seq<char>,
    /// The chemical structure behind the fragment, if the node has one.
    pub structure: Option<S>,
    /// The places of the fragments this one was cleaved into.
    pub children: Seq<usize>,
    /// The places of the fragments this one was cleaved from.
    pub parents: Seq<usize>,
}

impl<S> View for FragmentNode<S> {
    type V = NodeView<S>;

    closed spec fn view(&self) -> NodeView<S> {
        NodeView {
            identity: self.identity@,
            structure: self.structure,
            children: self.children@,
            parents: self.parents@,
        }
    }
}

impl<S> FragmentNode<S> {
    /// The canonical identity string of the fragment.
    pub fn identity(&self) -> (identity: &String)
        ensures
            identity@ == self@.identity,
    {
        &self.identity
    }

    /// The chemical structure behind the fragment, if the node has one.
    pub fn structure(&self) -> (structure: Option<&S>)
        ensures
            structure == match self@.structure {
                Some(s) => Some(&s),
                None => None,
            },
    {
        self.structure.as_ref()
    }

    /// The places of the fragments this one was cleaved into.
    pub fn children(&self) -> (children: &Vec<usize>)
        ensures
            children@ == self@.children,
    {
        &self.children
    }

    /// The places of the fragments this one was cleaved from.
    pub fn parents(&self) -> (parents: &Vec<usize>)
        ensures
            parents@ == self@.parents,
    {
        &self.parents
    }
}

/// Whether the graph has an edge from the fragment at `parent` to the one at
/// `child`, as the parent records it.
pub open spec fn child_of<S>(g: Seq<NodeView<S>>, parent: usize, child: usize) -> bool {
    g[parent as int].children.contains(child)
}

/// Whether the graph has an edge from the fragment at `parent` to the one at
/// `child`, as the child records it.
pub open spec fn parent_of<S>(g: Seq<NodeView<S>>, child: usize, parent: usize) -> bool {
    g[child as int].parents.contains(parent)
}

/// Whether every entry of an adjacency list is a place of the graph, and none
/// occurs twice.
pub open spec fn is_adjacency<S>(g: Seq<NodeView<S>>, list: Seq<usize>) -> bool {
    &&& list.no_duplicates()
    &&& forall|k: int| 0 <= k < list.len() ==> (#[trigger] list[k]) < g.len()
}

/// The invariant of a fragment graph, but for its being rooted: the root
/// exists, no identity occurs twice, and parents and children record the same
/// edges.
pub open spec fn consistent<S>(g: Seq<NodeView<S>>) -> bool {
    &&& 1 <= g.len() <= usize::MAX
    &&& forall|i: int, j: int|
        0 <= i < j < g.len() ==> (#[trigger] g[i]).identity != (#[trigger] g[j]).identity
    &&& forall|i: int|
        0 <= i < g.len() ==> is_adjacency(g, (#[trigger] g[i]).children) && is_adjacency(
            g,
            g[i].parents,
        )
    &&& forall|p: usize, c: usize|
        #![trigger child_of(g, p, c)]
        #![trigger parent_of(g, c, p)]
        p < g.len() && c < g.len() ==> (child_of(g, p, c) <==> parent_of(g, c, p))
}

/// Whether every fragment but the root was first cleaved from a fragment
/// that is older than itself.
pub open spec fn rooted<S>(g: Seq<NodeView<S>>) -> bool {
    forall|i: int|
        0 < i < g.len() ==> (#[trigger] g[i]).parents.len() > 0 && g[i].parents[0] < i
}

/// The invariant of a fragment graph.
pub open spec fn well_formed<S>(g: Seq<NodeView<S>>) -> bool {
    consistent(g) && rooted(g)
}

/// The place of the fragment with the given identity, if the graph has it.
pub open spec fn position<S>(g: Seq<NodeView<S>>, identity: Seq<char>) -> Option<usize> {
    if exists|i: usize| i < g.len() && (#[trigger] g[i as int]).identity == identity {
        Some(choose|i: usize| i < g.len() && (#[trigger] g[i as int]).identity == identity)
    } else {
        None
    }
}

/// A node for a fragment that has no edges yet.
pub open spec fn fresh_node<S>(identity: Seq<char>, structure: S) -> NodeView<S> {
    NodeView {
        identity,
        structure: Some(structure),
        children: Seq::empty(),
        parents: Seq::empty(),
    }
}

/// The graph with an edge from `parent` to `child`; the graph itself where
/// it has that edge already.
pub open spec fn with_edge<S>(g: Seq<NodeView<S>>, parent: usize, child: usize) -> Seq<
    NodeView<S>,
> {
    if child_of(g, parent, child) {
        g
    } else {
        let g1 = g.update(
            parent as int,
            NodeView { children: g[parent as int].children.push(child), ..g[parent as int] },
        );
        g1.update(
            child as int,
            NodeView { parents: g1[child as int].parents.push(parent), ..g1[child as int] },
        )
    }
}

/// The graph after the fragment at `source` was found to cleave into a piece
/// with the given identity. A fragment the graph knows is reused and gains
/// `source` as a parent; an unknown one is added at the end, with `structure`
/// behind it and `source` as its first parent.
pub open spec fn adopted<S>(
    g: Seq<NodeView<S>>,
    source: usize,
    identity: Seq<char>,
    structure: S,
) -> Seq<NodeView<S>> {
    match position(g, identity) {
        Some(i) => with_edge(g, source, i),
        None => with_edge(g.push(fresh_node(identity, structure)), source, g.len() as usize),
    }
}

/// In a consistent graph an identity names at most one place.
pub proof fn lemma_position_unique<S>(g: Seq<NodeView<S>>, identity: Seq<char>, i: usize)
    requires
        consistent(g),
        i < g.len(),
        g[i as int].identity == identity,
    ensures
        position(g, identity) == Some(i),
{
    let j = choose|j: usize| j < g.len() && (#[trigger] g[j as int]).identity == identity;
    if j < i {
        assert(g[j as int].identity != g[i as int].identity);
    } else if i < j {
        assert(g[i as int].identity != g[j as int].identity);
    }
}

/// What a list holds once an item is appended to it.
proof fn lemma_push_contains(list: Seq<usize>, item: usize, other: usize)
    ensures
        list.push(item).contains(other) <==> list.contains(other) || other == item,
{
    if list.contains(other) {
        let k = choose|k: int| 0 <= k < list.len() && list[k] == other;
        assert(list.push(item)[k] == other);
    }
    if other == item {
        assert(list.push(item)[list.len() as int] == other);
    }
}

/// Adding an edge keeps a graph consistent, and changes no fragment's
/// identity or structure.
pub proof fn lemma_with_edge_consistent<S>(g: Seq<NodeView<S>>, parent: usize, child: usize)
    requires
        consistent(g),
        parent < g.len(),
        child < g.len(),
    ensures
        consistent(with_edge(g, parent, child)),
        with_edge(g, parent, child).len() == g.len(),
        forall|i: int|
            0 <= i < g.len() ==> (#[trigger] with_edge(g, parent, child)[i]).identity
                == g[i].identity && with_edge(g, parent, child)[i].structure == g[i].structure,
{
    let h = with_edge(g, parent, child);
    if !child_of(g, parent, child) {
        assert(!parent_of(g, child, parent));
        assert(h[parent as int].children == g[parent as int].children.push(child));
        assert(h[child as int].parents == g[child as int].parents.push(parent));
        assert forall|i: int| 0 <= i < h.len() implies is_adjacency(h, (#[trigger] h[i]).children)
            && is_adjacency(h, h[i].parents) by {
            assert(is_adjacency(g, g[i].children) && is_adjacency(g, g[i].parents));
        }
        assert forall|p: usize, c: usize|
            #![trigger child_of(h, p, c)]
            #![trigger parent_of(h, c, p)]
            p < h.len() && c < h.len() implies (child_of(h, p, c) <==> parent_of(h, c, p)) by {
            assert(child_of(g, p, c) <==> parent_of(g, c, p));
            lemma_push_contains(g[parent as int].children, child, c);
            lemma_push_contains(g[child as int].parents, parent, p);
            if p != parent {
                assert(h[p as int].children == g[p as int].children);
            }
            if c != child {
                assert(h[c as int].parents == g[c as int].parents);
            }
        }
        assert forall|i: int, j: int| 0 <= i < j < h.len() implies (#[trigger] h[i]).identity
            != (#[trigger] h[j]).identity by {
            assert(g[i].identity != g[j].identity);
        }
    }
}

/// A graph with one fragment more, which has no edges yet and an identity
/// that the graph did not know, is consistent as the graph was.
pub proof fn lemma_push_consistent<S>(g: Seq<NodeView<S>>, identity: Seq<char>, structure: S)
    requires
        consistent(g),
        position(g, identity) is None,
        g.len() < usize::MAX,
    ensures
        consistent(g.push(fresh_node(identity, structure))),
{
    let m = g.push(fresh_node(identity, structure));
    assert forall|i: int| 0 <= i < m.len() implies is_adjacency(m, (#[trigger] m[i]).children)
        && is_adjacency(m, m[i].parents) by {
        if i < g.len() {
            assert(is_adjacency(g, g[i].children) && is_adjacency(g, g[i].parents));
        }
    }
    assert forall|p: usize, c: usize|
        #![trigger child_of(m, p, c)]
        #![trigger parent_of(m, c, p)]
        p < m.len() && c < m.len() implies (child_of(m, p, c) <==> parent_of(m, c, p)) by {
        if p < g.len() && c < g.len() {
            assert(child_of(g, p, c) <==> parent_of(g, c, p));
        } else if p < g.len() {
            assert(is_adjacency(g, g[p as int].children));
        } else if c < g.len() {
            assert(is_adjacency(g, g[c as int].parents));
        }
    }
    assert forall|i: int, j: int| 0 <= i < j < m.len() implies (#[trigger] m[i]).identity
        != (#[trigger] m[j]).identity by {
        if j < g.len() {
            assert(g[i].identity != g[j].identity);
        } else {
            assert(g[i as usize as int].identity != identity);
        }
    }
}

/// The edges of a graph with one edge more: those it had, and that one.
pub proof fn lemma_with_edge_edges<S>(g: Seq<NodeView<S>>, parent: usize, child: usize)
    requires
        consistent(g),
        parent < g.len(),
        child < g.len(),
    ensures
        forall|p: usize, c: usize|
            p < g.len() && c < g.len() ==> (#[trigger] child_of(with_edge(g, parent, child), p, c)
                <==> child_of(g, p, c) || (p == parent && c == child)),
{
    let h = with_edge(g, parent, child);
    assert forall|p: usize, c: usize| p < g.len() && c < g.len() implies (#[trigger] child_of(
        h,
        p,
        c,
    ) <==> child_of(g, p, c) || (p == parent && c == child)) by {
        if !child_of(g, parent, child) {
            let g1 = g.update(
                parent as int,
                NodeView { children: g[parent as int].children.push(child), ..g[parent as int] },
            );
            lemma_push_contains(g[parent as int].children, child, c);
            assert(h[p as int].children == g1[p as int].children);
            if p != parent {
                assert(g1[p as int].children == g[p as int].children);
            } else {
                assert(g1[p as int].children == g[p as int].children.push(child));
            }
        }
    }
}

/// Whether the fragment at `parent` has a child with the given identity.
pub open spec fn has_child_named<S>(g: Seq<NodeView<S>>, parent: usize, identity: Seq<char>) -> bool {
    exists|c: usize|
        c < g.len() && (#[trigger] g[c as int]).identity == identity && child_of(g, parent, c)
}

/// The edges of a graph after a piece was recorded: those it had, and the
/// one from the source to the piece.
pub proof fn lemma_adopted_edges<S>(
    g: Seq<NodeView<S>>,
    source: usize,
    identity: Seq<char>,
    structure: S,
)
    requires
        well_formed(g),
        source < g.len(),
        adopted(g, source, identity, structure).len() <= usize::MAX,
    ensures
        forall|p: usize, c: usize|
            p < g.len() && c < g.len() && child_of(g, p, c) ==> #[trigger] child_of(
                adopted(g, source, identity, structure),
                p,
                c,
            ),
        forall|p: usize, c: usize|
            p < adopted(g, source, identity, structure).len() && c < adopted(
                g,
                source,
                identity,
                structure,
            ).len() && #[trigger] child_of(adopted(g, source, identity, structure), p, c) ==> (p
                < g.len() && c < g.len() && child_of(g, p, c)) || (p == source && adopted(
                g,
                source,
                identity,
                structure,
            )[c as int].identity == identity),
        has_child_named(adopted(g, source, identity, structure), source, identity),
{
    let h = adopted(g, source, identity, structure);
    lemma_adopted(g, source, identity, structure);
    match position(g, identity) {
        Some(child) => {
            lemma_with_edge_edges(g, source, child);
            assert(child_of(h, source, child));
            assert(h[child as int].identity == identity);
        },
        None => {
            let m = g.push(fresh_node(identity, structure));
            let child = g.len() as usize;
            lemma_push_consistent(g, identity, structure);
            lemma_with_edge_edges(m, source, child);
            assert forall|p: usize, c: usize|
                p < g.len() && c < g.len() && child_of(g, p, c) implies #[trigger] child_of(
                h,
                p,
                c,
            ) by {
                assert(child_of(m, p, c));
            }
            assert forall|p: usize, c: usize|
                p < h.len() && c < h.len() && #[trigger] child_of(h, p, c) implies (p < g.len()
                && c < g.len() && child_of(g, p, c)) || (p == source && h[c as int].identity
                == identity) by {
                assert(child_of(m, p, c) || (p == source && c == child));
                if child_of(m, p, c) {
                    if p >= g.len() {
                        assert(m[p as int].children.len() == 0);
                    } else {
                        assert(is_adjacency(g, g[p as int].children));
                        assert(m[p as int].children == g[p as int].children);
                    }
                }
            }
            assert(child_of(h, source, child));
            assert(h[child as int].identity == identity);
        },
    }
}

/// What recording a piece changes: the graph stays well formed; the fragments
/// it had keep their identity and structure; it grows by one fragment, the
/// piece, exactly if it did not know the piece's identity.
pub proof fn lemma_adopted<S>(g: Seq<NodeView<S>>, source: usize, identity: Seq<char>, structure: S)
    requires
        well_formed(g),
        source < g.len(),
        adopted(g, source, identity, structure).len() <= usize::MAX,
    ensures
        well_formed(adopted(g, source, identity, structure)),
        adopted(g, source, identity, structure).len() == g.len() + (if position(g, identity)
            is None {
            1int
        } else {
            0int
        }),
        forall|i: int|
            0 <= i < g.len() ==> (#[trigger] adopted(g, source, identity, structure)[i]).identity
                == g[i].identity && adopted(g, source, identity, structure)[i].structure
                == g[i].structure,
        position(g, identity) is None ==> adopted(g, source, identity, structure)[g.len() as int].identity
            == identity && adopted(g, source, identity, structure)[g.len() as int].structure
            == Some(structure),
        forall|other: Seq<char>|
            position(adopted(g, source, identity, structure), other) is Some <==> (position(
                g,
                other,
            ) is Some || other == identity),
{
    let h = adopted(g, source, identity, structure);
    match position(g, identity) {
        Some(child) => {
            lemma_with_edge_consistent(g, source, child);
            assert forall|i: int| 0 < i < h.len() implies (#[trigger] h[i]).parents.len() > 0
                && h[i].parents[0] < i by {
                assert(g[i].parents.len() > 0 && g[i].parents[0] < i);
            }
            assert forall|other: Seq<char>|
                position(h, other) is Some <==> (position(g, other) is Some || other
                    == identity) by {
                if position(h, other) is Some {
                    let i = position(h, other)->0;
                    assert(g[i as int].identity == other);
                }
                if position(g, other) is Some {
                    let i = position(g, other)->0;
                    assert(h[i as int].identity == other);
                }
            }
        },
        None => {
            let m = g.push(fresh_node(identity, structure));
            let child = g.len() as usize;
            lemma_push_consistent(g, identity, structure);
            lemma_with_edge_consistent(m, source, child);
            assert forall|i: int| 0 < i < h.len() implies (#[trigger] h[i]).parents.len() > 0
                && h[i].parents[0] < i by {
                if i < g.len() {
                    assert(g[i].parents.len() > 0 && g[i].parents[0] < i);
                }
            }
            assert(h[child as int].identity == identity);
            assert forall|other: Seq<char>|
                position(h, other) is Some <==> (position(g, other) is Some || other
                    == identity) by {
                if position(h, other) is Some {
                    let i = position(h, other)->0;
                    if i < g.len() {
                        assert(g[i as int].identity == other);
                    }
                }
                if position(g, other) is Some {
                    let i = position(g, other)->0;
                    assert(h[i as int].identity == other);
                }
            }
        },
    }
}

/// The arena of fragments built by one decomposition.
pub struct FragmentGraph<S> {
    nodes: Vec<FragmentNode<S>>,
    index: StringHashMap<usize>,
}

impl<S> View for FragmentGraph<S> {
    type V = Seq<NodeView<S>>;

    closed spec fn view(&self) -> Seq<NodeView<S>> {
        Seq::new(self.nodes@.len(), |i: int| self.nodes@[i]@)
    }
}

/// Whether `list` holds `place`.
fn holds(list: &Vec<usize>, place: usize) -> (found: bool)
    ensures
        found == list@.contains(place),
{
    let mut k: usize = 0;
    while k < list.len()
        invariant
            k <= list.len(),
            forall|j: int| 0 <= j < k ==> list@[j] != place,
        decreases list.len() - k,
    {
        if list[k] == place {
            return true;
        }
        k = k + 1;
    }
    false
}

impl<S> FragmentGraph<S> {
    /// Whether the lookup table from identity to place agrees with the arena.
    pub closed spec fn indexed(&self) -> bool {
        &&& forall|i: int|
            0 <= i < self.nodes@.len() ==> self.index@.contains_key(
                (#[trigger] self.nodes@[i]).identity@,
            ) && self.index@[self.nodes@[i].identity@] == i
        &&& forall|key: Seq<char>| #[trigger]
            self.index@.contains_key(key) ==> self.index@[key] < self.nodes@.len()
                && self.nodes@[self.index@[key] as int].identity@ == key
    }

    /// The invariant of the graph but for its being rooted.
    pub open spec fn linked(&self) -> bool {
        self.indexed() && consistent(self@)
    }

    /// The invariant of the graph.
    pub open spec fn wf(&self) -> bool {
        self.indexed() && well_formed(self@)
    }

    /// A graph that holds the given molecule alone, as its root.
    pub fn new(identity: String, structure: S) -> (graph: Self)
        ensures
            graph.wf(),
            graph@ == seq![fresh_node(identity@, structure)],
    {
        let mut index: StringHashMap<usize> = StringHashMap::new();
        index.insert(identity.clone(), 0);
        let mut nodes: Vec<FragmentNode<S>> = Vec::new();
        nodes.push(
            FragmentNode {
                identity,
                structure: Some(structure),
                children: Vec::new(),
                parents: Vec::new(),
            },
        );
        let graph = FragmentGraph { nodes, index };
        assert(graph@ =~= seq![fresh_node(identity@, structure)]);
        assert forall|p: usize, c: usize|
            #![trigger child_of(graph@, p, c)]
            #![trigger parent_of(graph@, c, p)]
            p < graph@.len() && c < graph@.len() implies (child_of(graph@, p, c) <==> parent_of(
            graph@,
            c,
            p,
        )) by {}
        graph
    }

    /// The number of fragments in the graph.
    pub fn len(&self) -> (n: usize)
        ensures
            n == self@.len(),
    {
        self.nodes.len()
    }

    /// The fragment at the given place.
    pub fn node(&self, place: usize) -> (node: &FragmentNode<S>)
        requires
            place < self@.len(),
        ensures
            node@ == self@[place as int],
    {
        &self.nodes[place]
    }

    /// Looks up the place of the fragment with the given identity.
    pub fn find(&self, identity: &str) -> (place: Option<usize>)
        requires
            self.linked(),
        ensures
            place == position(self@, identity@),
    {
        match self.index.get(identity) {
            Some(i) => {
                proof {
                    lemma_position_unique(self@, identity@, *i);
                }
                Some(*i)
            },
            None => {
                assert forall|i: usize| i < self@.len() implies (#[trigger] self@[i as int]).identity
                    != identity@ by {
                    assert(self.index@.contains_key(self.nodes@[i as int].identity@));
                }
                None
            },
        }
    }

    /// Records an edge from the fragment at `parent` to the one at `child`,
    /// unless the graph has it already.
    fn link(&mut self, parent: usize, child: usize)
        requires
            old(self).linked(),
            parent < old(self)@.len(),
            child < old(self)@.len(),
        ensures
            final(self).linked(),
            final(self)@ == with_edge(old(self)@, parent, child),
    {
        proof {
            lemma_with_edge_consistent(self@, parent, child);
        }
        if !holds(&self.nodes[parent].children, child) {
            self.nodes[parent].children.push(child);
            self.nodes[child].parents.push(parent);
            assert(self@ =~= with_edge(old(self)@, parent, child));
        }
    }

    /// Records that the fragment at `source` cleaves into a piece with the
    /// given identity and structure. Returns the place of that piece and
    /// whether the graph met it for the first time.
    pub fn adopt(&mut self, source: usize, identity: String, structure: S) -> (piece: (
        usize,
        bool,
    ))
        requires
            old(self).wf(),
            source < old(self)@.len(),
        ensures
            final(self).wf(),
            final(self)@ == adopted(old(self)@, source, identity@, structure),
            piece.1 == (position(old(self)@, identity@) is None),
            piece.0 == match position(old(self)@, identity@) {
                Some(i) => i,
                None => old(self)@.len() as usize,
            },
    {
        match self.find(identity.as_str()) {
            Some(child) => {
                self.link(source, child);
                proof {
                    lemma_adopted(old(self)@, source, identity@, structure);
                }
                (child, false)
            },
            None => {
                let child = self.nodes.len();
                self.index.insert(identity.clone(), child);
                self.nodes.push(
                    FragmentNode {
                        identity,
                        structure: Some(structure),
                        children: Vec::new(),
                        parents: Vec::new(),
                    },
                );
                proof {
                    let g = old(self)@;
                    assert(self@ =~= g.push(fresh_node(identity@, structure)));
                    assert(self@.len() == self.nodes.len());
                    lemma_push_consistent(g, identity@, structure);
                    assert forall|i: int| 0 <= i < self.nodes@.len() implies self.index@.contains_key(
                        (#[trigger] self.nodes@[i]).identity@,
                    ) && self.index@[self.nodes@[i].identity@] == i by {
                        if i < g.len() {
                            assert(g[i as usize as int].identity != identity@);
                            assert(self.nodes@[i] == old(self).nodes@[i]);
                        }
                    }
                }
                self.link(source, child);
                proof {
                    lemma_adopted(old(self)@, source, identity@, structure);
                }
                (child, true)
            },
        }
    }
}

} // verus!
