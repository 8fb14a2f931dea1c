//! The result of a decomposition and its leaves: the fragments that the
//! molecule was cleaved into and that were not cleaved further.

use super::graph::{child_of, consistent, well_formed, FragmentGraph, NodeView};
use vstd::prelude::*;

verus! {

/// Whether `walk` follows edges of the graph from parent to child.
pub open spec fn is_walk<S>(g: Seq<NodeView<S>>, walk: Seq<usize>) -> bool {
    &&& walk.len() >= 1
    &&& forall|k: int| 0 <= k < walk.len() ==> (#[trigger] walk[k]) < g.len()
    &&& forall|k: int| 0 <= k < walk.len() - 1 ==> child_of(g, #[trigger] walk[k], walk[k + 1])
}

/// Whether the fragment at `to` can be reached from the one at `from` over
/// one edge or more.
pub open spec fn descends<S>(g: Seq<NodeView<S>>, from: usize, to: usize) -> bool {
    exists|walk: Seq<usize>|
        #![trigger is_walk(g, walk)]
        is_walk(g, walk) && walk.len() >= 2 && walk[0] == from && walk.last() == to
}

/// Whether the fragment at `place` was cleaved no further.
pub open spec fn is_terminal<S>(g: Seq<NodeView<S>>, place: usize) -> bool {
    place < g.len() && g[place as int].children.len() == 0
}

/// Whether the fragment at `place` is a leaf: a piece of the root, at any
/// depth, that was cleaved no further.
pub open spec fn is_leaf<S>(g: Seq<NodeView<S>>, place: usize) -> bool {
    is_terminal(g, place) && descends(g, 0, place)
}

/// Every fragment of a well-formed graph, but perhaps the root, descends
/// from the root.
pub proof fn lemma_descends_from_root<S>(g: Seq<NodeView<S>>, place: usize)
    requires
        well_formed(g),
        0 < place < g.len(),
    ensures
        descends(g, 0, place),
    decreases place,
{
    let parent = g[place as int].parents[0];
    assert(super::graph::is_adjacency(g, g[place as int].parents));
    assert(super::graph::parent_of(g, place, parent));
    assert(child_of(g, parent, place));
    if parent == 0 {
        let walk = seq![0usize, place];
        assert(is_walk(g, walk));
    } else {
        lemma_descends_from_root(g, parent);
        let to_parent = choose|walk: Seq<usize>|
            #![trigger is_walk(g, walk)]
            is_walk(g, walk) && walk.len() >= 2 && walk[0] == 0 && walk.last() == parent;
        let walk = to_parent.push(place);
        assert forall|k: int| 0 <= k < walk.len() - 1 implies child_of(
            g,
            #[trigger] walk[k],
            walk[k + 1],
        ) by {
            if k < to_parent.len() - 1 {
                assert(child_of(g, to_parent[k], to_parent[k + 1]));
            }
        }
        assert(is_walk(g, walk));
    }
}

/// A root that was not cleaved is no leaf: it does not descend from itself.
pub proof fn lemma_bare_root_is_no_leaf<S>(g: Seq<NodeView<S>>)
    requires
        consistent(g),
        is_terminal(g, 0),
    ensures
        !is_leaf(g, 0),
{
    if descends(g, 0, 0) {
        let walk = choose|walk: Seq<usize>|
            #![trigger is_walk(g, walk)]
            is_walk(g, walk) && walk.len() >= 2 && walk[0] == 0 && walk.last() == 0;
        assert(child_of(g, walk[0], walk[1]));
    }
}

/// The leaves of a well-formed graph are its terminal fragments, the root
/// left out: every fragment that was not cleaved is reachable from the root,
/// and so is a leaf, unless it is the root itself.
pub proof fn lemma_leaves_are_terminals<S>(g: Seq<NodeView<S>>, place: usize)
    requires
        well_formed(g),
    ensures
        is_leaf(g, place) <==> (0 < place && is_terminal(g, place)),
{
    if is_terminal(g, place) {
        if place == 0 {
            lemma_bare_root_is_no_leaf(g);
        } else {
            lemma_descends_from_root(g, place);
        }
    }
}

/// No two leaves of a well-formed graph have the same identity.
pub proof fn lemma_leaf_identities_differ<S>(g: Seq<NodeView<S>>, first: usize, second: usize)
    requires
        well_formed(g),
        is_leaf(g, first),
        is_leaf(g, second),
        first != second,
    ensures
        g[first as int].identity != g[second as int].identity,
{
    if first < second {
        assert(g[first as int].identity != g[second as int].identity);
    } else {
        assert(g[second as int].identity != g[first as int].identity);
    }
}

/// The finished graph of one decomposition.
pub struct RecapResult<S> {
    graph: FragmentGraph<S>,
}

impl<S> View for RecapResult<S> {
    type V = Seq<NodeView<S>>;

    closed spec fn view(&self) -> Seq<NodeView<S>> {
        self.graph@
    }
}

impl<S> RecapResult<S> {
    /// The invariant of the result: that of its graph.
    pub closed spec fn wf(&self) -> bool {
        self.graph.wf()
    }

    /// A result always holds a well-formed graph.
    pub proof fn lemma_wf(&self)
        requires
            self.wf(),
        ensures
            well_formed(self@),
    {
    }

    /// Wraps a finished graph.
    pub fn new(graph: FragmentGraph<S>) -> (result: Self)
        requires
            graph.wf(),
        ensures
            result.wf(),
            result@ == graph@,
            *result.graph() == graph,
    {
        RecapResult { graph }
    }

    /// The graph behind the result.
    #[verifier::when_used_as_spec(spec_graph)]
    pub fn graph(&self) -> (graph: &FragmentGraph<S>)
        ensures
            graph == self.spec_graph(),
            graph@ == self@,
            self.wf() ==> graph.wf(),
    {
        &self.graph
    }

    /// The graph behind the result.
    pub closed spec fn spec_graph(&self) -> &FragmentGraph<S> {
        &self.graph
    }

    /// The places of the leaves, in ascending order, each of them once: every
    /// fragment that descends from the root and was cleaved no further, and
    /// no other. No two of them have the same identity.
    pub fn get_leaves(&self) -> (leaves: Vec<usize>)
        requires
            self.wf(),
        ensures
            forall|a: int, b: int| 0 <= a < b < leaves.len() ==> leaves[a] < leaves[b],
            forall|place: usize| leaves@.contains(place) <==> is_leaf(self@, place),
            forall|a: int, b: int|
                0 <= a < b < leaves.len() ==> self@[leaves[a] as int].identity
                    != self@[leaves[b] as int].identity,
    {
        let mut leaves: Vec<usize> = Vec::new();
        let n = self.graph.len();
        let mut i: usize = 1;
        while i < n
            invariant
                1 <= i <= n,
                n == self@.len(),
                self.wf(),
                forall|a: int, b: int| 0 <= a < b < leaves.len() ==> leaves[a] < leaves[b],
                forall|k: int| 0 <= k < leaves.len() ==> leaves[k] < i,
                forall|place: usize|
                    leaves@.contains(place) <==> (0 < place < i && is_terminal(self@, place)),
            decreases n - i,
        {
            if self.graph.node(i).children().len() == 0 {
                let ghost before = leaves@;
                leaves.push(i);
                proof {
                    assert forall|place: usize| leaves@.contains(place) <==> (0 < place < i + 1
                        && is_terminal(self@, place)) by {
                        if leaves@.contains(place) {
                            let k = choose|k: int| 0 <= k < leaves@.len() && leaves@[k] == place;
                            if k < before.len() {
                                assert(before.contains(place));
                            }
                        }
                        if 0 < place < i && is_terminal(self@, place) {
                            assert(before.contains(place));
                            let k = choose|k: int| 0 <= k < before.len() && before[k] == place;
                            assert(leaves@[k] == place);
                        }
                        if place == i {
                            assert(leaves@[before.len() as int] == place);
                        }
                    }
                }
            }
            i = i + 1;
        }
        proof {
            assert forall|place: usize| leaves@.contains(place) <==> is_leaf(self@, place) by {
                lemma_leaves_are_terminals(self@, place);
            }
            assert forall|a: int, b: int| 0 <= a < b < leaves.len() implies self@[leaves[a] as int].identity
                != self@[leaves[b] as int].identity by {
                assert(leaves@.contains(leaves[a]) && leaves@.contains(leaves[b]));
                lemma_leaf_identities_differ(self@, leaves[a], leaves[b]);
            }
        }
        leaves
    }
}

} // verus!
