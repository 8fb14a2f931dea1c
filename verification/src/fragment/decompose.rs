//! The decomposition itself: a worklist of fragments, each of which has every
//! allowed rule applied to it once, and a graph that records into which
//! pieces each fragment was cleaved.
//!
//! The chemistry is not done here. A [`Decomposition`] says what it needs
//! next from the chemistry engine (a [`Request`]), the caller has the engine
//! do it and hands the answer back, and the decomposition decides what
//! follows. It is finished when it asks for nothing more.

use super::filter::accepts;
use super::graph::FragmentGraph;
use super::laws::{lemma_absorb_one, lemma_absorb_stage};
use super::leaves::RecapResult;
use super::order::{is_size_order, order_by_size, size_order};
use super::rules::{next_rule, rule_allowed, RULE_COUNT};
use super::run::{
    absorb, absorb_one, after_identity, after_products, awaited_product, base_inv, busy_with,
    countable, lemma_take_node_inv, lemma_take_rule_inv, lemma_take_set_inv, next_node, next_set,
    run_inv, started, take_node, take_rule, take_set, RunView, Stage,
};
use std::collections::HashSet;
use vstd::hash_set::StringHashSet;
use vstd::prelude::*;

verus! {

broadcast use vstd::std_specs::hash::group_hash_axioms;

/// What a paused decomposition asks of the chemistry engine.
#[derive(Clone, Copy, Debug, PartialEq, Eq, Structural)]
pub enum Request {
    /// Apply rule `rule` of the reaction table to the structure of the
    /// fragment at `node`, and answer with the atom counts of the products,
    /// set by set.
    Apply { node: usize, rule: usize },
    /// Sanitize product `product` of product set `set` of the last answer,
    /// and answer with its canonical identity and its structure.
    Identify { set: usize, product: usize },
    /// Nothing: the decomposition is finished.
    Done,
}

/// What a decomposition at the given pause asks for.
pub open spec fn request_of<S>(v: RunView<S>) -> Request {
    match v.stage {
        Stage::Applying { node, rule } => Request::Apply { node, rule },
        Stage::Examining { node, rule, sets, set, pos, accepted } => Request::Identify {
            set: set as usize,
            product: awaited_product(sets, set, pos),
        },
        Stage::Finished => Request::Done,
    }
}

/// Product sets as plain values: the atom count of each product.
pub open spec fn sets_view(sets: Seq<Vec<usize>>) -> Seq<Seq<usize>> {
    Seq::new(sets.len(), |i: int| sets[i]@)
}

/// Identified products as plain values: identity and structure of each.
pub open spec fn products_view<S>(products: Seq<(String, S)>) -> Seq<(Seq<char>, S)> {
    Seq::new(products.len(), |i: int| (products[i].0@, products[i].1))
}

/// The rules that may fire, as plain values.
pub open spec fn selection_view(selection: Option<HashSet<usize>>) -> Option<Set<usize>> {
    match selection {
        Some(rules) => Some(rules@),
        None => None,
    }
}

/// A decomposition in progress.
pub struct Decomposition<S> {
    graph: FragmentGraph<S>,
    pool: Vec<usize>,
    seen: StringHashSet,
    min_fragment_size: usize,
    allowed: Option<HashSet<usize>>,
    request: Request,
    node: usize,
    rule: usize,
    sets: Vec<Vec<usize>>,
    set: usize,
    order: Vec<usize>,
    pos: usize,
    accepted: Vec<(String, S)>,
}

impl<S> View for Decomposition<S> {
    type V = RunView<S>;

    closed spec fn view(&self) -> RunView<S> {
        RunView {
            graph: self.graph@,
            pool: self.pool@,
            seen: self.seen@,
            min_fragment_size: self.min_fragment_size,
            allowed: selection_view(self.allowed),
            stage: match self.request {
                Request::Apply { .. } => Stage::Applying { node: self.node, rule: self.rule },
                Request::Identify { .. } => Stage::Examining {
                    node: self.node,
                    rule: self.rule,
                    sets: sets_view(self.sets@),
                    set: self.set as int,
                    pos: self.pos as int,
                    accepted: products_view(self.accepted@),
                },
                Request::Done => Stage::Finished,
            },
        }
    }
}

/// The next pause does not depend on what the decomposition was waiting for
/// before.
proof fn lemma_take_set_from_any_stage<S>(
    v: RunView<S>,
    w: RunView<S>,
    node: usize,
    rule: usize,
    sets: Seq<Seq<usize>>,
    from: int,
)
    requires
        w == (RunView { stage: w.stage, ..v }),
    ensures
        take_set(w, node, rule, sets, from) == take_set(v, node, rule, sets, from),
{
}

/// Records the products of an accepted cleavage of the fragment at `source`
/// in the three registries of a decomposition.
fn absorb_products<S>(
    graph: &mut FragmentGraph<S>,
    pool: &mut Vec<usize>,
    seen: &mut StringHashSet,
    source: usize,
    products: Vec<(String, S)>,
    Ghost(v): Ghost<RunView<S>>,
)
    requires
        old(graph).indexed(),
        base_inv(v),
        v.graph == old(graph)@,
        v.pool == old(pool)@,
        v.seen == old(seen)@,
        source < v.graph.len(),
        v.graph[source as int].structure is Some,
        !v.pool.contains(source),
    ensures
        final(graph).indexed(),
        final(graph)@ == absorb(v, source, products_view(products@)).graph,
        final(pool)@ == absorb(v, source, products_view(products@)).pool,
        final(seen)@ == absorb(v, source, products_view(products@)).seen,
        base_inv(absorb(v, source, products_view(products@))),
        source < final(graph)@.len(),
        final(graph)@[source as int].structure is Some,
        !final(pool)@.contains(source),
{
    let ghost all = products_view(products@);
    let ghost mut now = v;
    assert(all.take(0) =~= Seq::empty());
    for product in it: products
        invariant
            it.seq() == products@,
            all == products_view(products@),
            now == absorb(v, source, all.take(it.index())),
            graph.indexed(),
            base_inv(now),
            now.graph == graph@,
            now.pool == pool@,
            now.seen == seen@,
            source < now.graph.len(),
            now.graph[source as int].structure is Some,
            !now.pool.contains(source),
    {
        let (identity, structure) = product;
        let ghost before = now;
        proof {
            assert(all.take(it.index() + 1).drop_last() =~= all.take(it.index()));
            assert(all.take(it.index() + 1).last() == (identity@, structure));
            now = absorb_one(before, source, identity@, structure);
        }
        let unseen = !seen.contains(identity.as_str());
        let unknown = graph.find(identity.as_str()).is_none();
        if unknown && unseen {
            seen.insert(identity.clone());
        }
        let (place, fresh) = graph.adopt(source, identity, structure);
        if fresh && unseen {
            pool.push(place);
        }
        proof {
            lemma_absorb_one(before, source, identity@, structure);
            if now.pool.contains(source) {
                assert(before.pool.contains(source));
            }
        }
    }
    assert(all.take(all.len() as int) =~= all);
}

impl<S> Decomposition<S> {
    /// What holds of the parts of a decomposition that its view does not
    /// show.
    pub closed spec fn inv(&self) -> bool {
        &&& self.graph.indexed()
        &&& match self.request {
            Request::Apply { node, rule } => node == self.node && rule == self.rule,
            Request::Identify { set, product } => {
                &&& set == self.set
                &&& self.set < self.sets@.len()
                &&& is_size_order(self.sets@[self.set as int]@, self.order@)
                &&& self.order@ == size_order(self.sets@[self.set as int]@)
                &&& self.pos < self.order@.len()
                &&& product == self.order@[self.pos as int]
            },
            Request::Done => true,
        }
    }

    /// The invariant of a decomposition.
    pub open spec fn wf(&self) -> bool {
        self.inv() && run_inv(self@)
    }

    /// Whether the given rule may fire.
    fn may_fire(&self, rule: usize) -> (allowed: bool)
        ensures
            allowed == rule_allowed(self@.allowed, rule),
    {
        match &self.allowed {
            None => true,
            Some(rules) => rules.contains(&rule),
        }
    }

    /// The first rule at or after `from` that may fire.
    fn rule_from(&self, from: usize) -> (rule: usize)
        ensures
            rule == next_rule(self@.allowed, from),
    {
        let mut rule = from;
        while rule < RULE_COUNT
            invariant
                next_rule(self@.allowed, rule) == next_rule(self@.allowed, from),
            decreases RULE_COUNT - rule,
        {
            if self.may_fire(rule) {
                return rule;
            }
            rule = rule + 1;
        }
        RULE_COUNT
    }

    /// The first product set at or after `from` that has products.
    fn set_from(&self, from: usize) -> (set: usize)
        requires
            from <= self.sets@.len(),
        ensures
            set == next_set(sets_view(self.sets@), from as int),
            from <= set <= self.sets@.len(),
    {
        let mut set = from;
        while set < self.sets.len()
            invariant
                from <= set <= self.sets@.len(),
                next_set(sets_view(self.sets@), set as int) == next_set(
                    sets_view(self.sets@),
                    from as int,
                ),
            decreases self.sets@.len() - set,
        {
            if self.sets[set].len() > 0 {
                return set;
            }
            set = set + 1;
        }
        set
    }

    /// Takes the next fragment from the worklist.
    fn settle_node(&mut self)
        requires
            old(self).graph.indexed(),
            base_inv(old(self)@),
        ensures
            final(self).wf(),
            final(self)@ == take_node(old(self)@),
    {
        let ghost start = self@;
        proof {
            lemma_take_node_inv(start);
        }
        let rule = self.rule_from(0);
        let mut pool: Vec<usize> = Vec::new();
        std::mem::swap(&mut self.pool, &mut pool);
        let mut found: Option<usize> = None;
        if rule < RULE_COUNT {
            while found.is_none() && pool.len() > 0
                invariant
                    self.graph@ == start.graph,
                    forall|k: int| 0 <= k < pool@.len() ==> (#[trigger] pool@[k]) < self.graph@.len(),
                    match found {
                        None => next_node(start.graph, pool@) == next_node(start.graph, start.pool),
                        Some(node) => next_node(start.graph, start.pool) == pool@.push(node),
                    },
                decreases pool.len() + (if found is None { 1int } else { 0int }),
            {
                let ghost whole = pool@;
                let node = pool[pool.len() - 1];
                pool.pop();
                assert(pool@ =~= whole.drop_last());
                if self.graph.node(node).structure().is_some() {
                    found = Some(node);
                    assert(whole =~= pool@.push(node));
                }
            }
        }
        match found {
            Some(node) => {
                proof {
                    assert(pool@.push(node).drop_last() =~= pool@);
                }
                self.pool = pool;
                self.node = node;
                self.rule = rule;
                self.request = Request::Apply { node, rule };
            },
            None => {
                self.request = Request::Done;
                assert(self@.pool =~= Seq::<usize>::empty());
            },
        }
        assert(self@ == take_node(start));
    }

    /// Moves on to the first allowed rule at or after `from`.
    fn settle_rule(&mut self, from: usize)
        requires
            old(self).graph.indexed(),
            base_inv(old(self)@),
            old(self).node < old(self)@.graph.len(),
            old(self)@.graph[old(self).node as int].structure is Some,
            !old(self)@.pool.contains(old(self).node),
        ensures
            final(self).wf(),
            final(self)@ == take_rule(old(self)@, old(self).node, from),
    {
        proof {
            lemma_take_rule_inv(self@, self.node, from);
        }
        let rule = self.rule_from(from);
        if rule < RULE_COUNT {
            self.rule = rule;
            self.request = Request::Apply { node: self.node, rule };
        } else {
            self.settle_node();
        }
    }

    /// Moves on to the first product set at or after `from` that has
    /// products.
    fn settle_set(&mut self, from: usize)
        requires
            old(self).graph.indexed(),
            base_inv(old(self)@),
            busy_with(old(self)@, old(self).node, old(self).rule),
            countable(sets_view(old(self).sets@)),
            from <= old(self).sets@.len(),
        ensures
            final(self).wf(),
            final(self)@ == take_set(
                old(self)@,
                old(self).node,
                old(self).rule,
                sets_view(old(self).sets@),
                from as int,
            ),
    {
        proof {
            lemma_take_set_inv(self@, self.node, self.rule, sets_view(self.sets@), from as int);
        }
        let set = self.set_from(from);
        if set < self.sets.len() {
            let order = order_by_size(&self.sets[set]);
            self.set = set;
            self.pos = 0;
            self.accepted = Vec::new();
            self.request = Request::Identify { set, product: order[0] };
            self.order = order;
            assert(self@.stage->Examining_accepted =~= Seq::empty());
        } else {
            self.settle_rule(self.rule + 1);
        }
    }

    /// What the decomposition needs next from the chemistry engine.
    pub fn request(&self) -> (request: Request)
        requires
            self.wf(),
        ensures
            request == request_of(self@),
    {
        self.request
    }

    /// The graph as it stands.
    #[verifier::when_used_as_spec(spec_graph)]
    pub fn graph(&self) -> (graph: &FragmentGraph<S>)
        ensures
            graph == self.spec_graph(),
            graph@ == self@.graph,
            self.wf() ==> graph.wf(),
    {
        &self.graph
    }

    /// The graph as it stands.
    pub closed spec fn spec_graph(&self) -> &FragmentGraph<S> {
        &self.graph
    }

    /// Hands the decomposition the product sets that the rule it asked for
    /// gave, each product by its atom count; an empty vector where the rule
    /// did not match.
    pub fn supply_products(&mut self, atom_counts: Vec<Vec<usize>>)
        requires
            old(self).wf(),
            request_of(old(self)@) is Apply,
        ensures
            final(self).wf(),
            final(self)@ == after_products(old(self)@, sets_view(atom_counts@)),
    {
        let ghost start = self@;
        self.sets = atom_counts;
        proof {
            let sets = sets_view(self.sets@);
            assert forall|i: int| 0 <= i < sets.len() implies (#[trigger] sets[i]).len()
                <= usize::MAX by {
                assert(self.sets@[i].len() == self.sets@[i]@.len());
            }
            assert(sets.len() == self.sets.len());
        }
        self.settle_set(0);
    }

    /// Hands the decomposition the canonical identity and the sanitized
    /// structure of the product it asked for.
    pub fn supply_identity(&mut self, identity: String, structure: S)
        requires
            old(self).wf(),
            request_of(old(self)@) is Identify,
        ensures
            final(self).wf(),
            final(self)@ == after_identity(old(self)@, identity@, structure),
    {
        let ghost start = self@;
        let ghost sets = sets_view(self.sets@);
        let product = self.order[self.pos];
        proof {
            assert(sets[self.set as int] == self.sets@[self.set as int]@);
        }
        let atom_count = self.sets[self.set][product];
        if !accepts(self.min_fragment_size, atom_count, identity.as_str()) {
            proof {
                lemma_take_set_from_any_stage(
                    start,
                    self@,
                    self.node,
                    self.rule,
                    sets,
                    self.set + 1,
                );
            }
            self.settle_set(self.set + 1);
        } else if self.pos + 1 < self.order.len() {
            self.accepted.push((identity, structure));
            self.pos = self.pos + 1;
            self.request = Request::Identify { set: self.set, product: self.order[self.pos] };
            assert(self@.stage->Examining_accepted =~= start.stage->Examining_accepted.push(
                (identity@, structure),
            ));
        } else {
            self.accepted.push((identity, structure));
            let ghost accepted = products_view(self.accepted@);
            assert(accepted =~= start.stage->Examining_accepted.push((identity@, structure)));
            let mut products: Vec<(String, S)> = Vec::new();
            std::mem::swap(&mut self.accepted, &mut products);
            absorb_products(
                &mut self.graph,
                &mut self.pool,
                &mut self.seen,
                self.node,
                products,
                Ghost(start),
            );
            proof {
                lemma_absorb_stage(start, self.node, accepted);
                lemma_take_set_from_any_stage(
                    absorb(start, self.node, accepted),
                    self@,
                    self.node,
                    self.rule,
                    sets,
                    self.set + 1,
                );
            }
            self.settle_set(self.set + 1);
        }
    }

    /// The result of a finished decomposition.
    pub fn finish(self) -> (result: RecapResult<S>)
        requires
            self.wf(),
            request_of(self@) is Done,
        ensures
            result.wf(),
            result@ == self@.graph,
    {
        RecapResult::new(self.graph)
    }
}

/// Starts the RECAP decomposition of a molecule, given by its canonical
/// identity and its structure.
///
/// With `min_fragment_size` absent or 0, cleavages that give a trivial
/// fragment are given up; with a positive one, those that give a fragment
/// with fewer real atoms. With `only_use_reactions` present, only the rules
/// of the reaction table that it names are applied.
pub fn recap_decompose<S>(
    identity: String,
    structure: S,
    min_fragment_size: Option<usize>,
    only_use_reactions: Option<HashSet<usize>>,
) -> (run: Decomposition<S>)
    ensures
        run.wf(),
        run@ == started(
            identity@,
            structure,
            match min_fragment_size {
                Some(size) => size,
                None => 0,
            },
            selection_view(only_use_reactions),
        ),
{
    let seen = StringHashSet::new();
    let graph = FragmentGraph::new(identity, structure);
    let mut pool: Vec<usize> = Vec::new();
    pool.push(0);
    let min_fragment_size = match min_fragment_size {
        Some(size) => size,
        None => 0,
    };
    let mut run = Decomposition {
        graph,
        pool,
        seen,
        min_fragment_size,
        allowed: only_use_reactions,
        request: Request::Done,
        node: 0,
        rule: 0,
        sets: Vec::new(),
        set: 0,
        order: Vec::new(),
        pos: 0,
        accepted: Vec::new(),
    };
    proof {
        let v = run@;
        assert(v.pool =~= seq![0usize]);
        assert(v.seen =~= Set::empty());
    }
    run.settle_node();
    run
}

} // verus!
