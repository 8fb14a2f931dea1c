//! What holds of every decomposition, proved from the rules by which one
//! moves on.

use super::filter::passes;
use super::graph::{lemma_adopted, lemma_with_edge_consistent, position, well_formed, NodeView};
use super::rules::RULE_COUNT;
use super::run::{
    absorb, absorb_one, after_identity, after_products, awaited_product, base_inv, countable,
    lemma_next_node, lemma_next_rule, lemma_next_set, lemma_take_set_inv, next_node, run_inv,
    take_set, RunView, Stage,
};
use vstd::prelude::*;

verus! {

/// Two fragments of a well-formed graph that have the same identity are the
/// same fragment.
pub proof fn lemma_identity_names_one_fragment<S>(g: Seq<NodeView<S>>, first: int, second: int)
    requires
        well_formed(g),
        0 <= first < g.len(),
        0 <= second < g.len(),
        g[first].identity == g[second].identity,
    ensures
        first == second,
{
    if first < second {
        assert(g[first].identity != g[second].identity);
    } else if second < first {
        assert(g[second].identity != g[first].identity);
    }
}

/// Every identity that was seen belongs to a fragment of the graph, so a
/// fragment that is new to the graph was never seen: it always joins the
/// worklist.
pub proof fn lemma_new_fragment_is_enqueued<S>(
    v: RunView<S>,
    source: usize,
    identity: Seq<char>,
    structure: S,
)
    requires
        run_inv(v),
        position(v.graph, identity) is None,
    ensures
        !v.seen.contains(identity),
        absorb_one(v, source, identity, structure).pool == v.pool.push(v.graph.len() as usize),
        absorb_one(v, source, identity, structure).seen == v.seen.insert(identity),
{
}

/// Moving on to the next pause changes neither the graph nor the identities
/// seen, and brings no fragment into the worklist.
pub proof fn lemma_moving_on_keeps_graph<S>(
    v: RunView<S>,
    node: usize,
    rule: usize,
    sets: Seq<Seq<usize>>,
    from: int,
)
    ensures
        take_set(v, node, rule, sets, from).graph == v.graph,
        take_set(v, node, rule, sets, from).seen == v.seen,
        forall|place: usize|
            take_set(v, node, rule, sets, from).pool.contains(place) ==> v.pool.contains(place),
{
    let w = take_set(v, node, rule, sets, from);
    lemma_next_node(v.graph, v.pool);
    assert forall|place: usize| w.pool.contains(place) implies v.pool.contains(place) by {
        let k = choose|k: int| 0 <= k < w.pool.len() && w.pool[k] == place;
        if w.pool != v.pool {
            let kept = next_node(v.graph, v.pool);
            assert(w.pool == kept.drop_last());
            assert(kept == v.pool.take(kept.len() as int));
            assert(v.pool[k] == place);
        }
    }
}

/// What recording one piece keeps: the invariant, every fragment the graph
/// had, and the worklist but for the piece itself, which joins it if it is
/// new.
pub proof fn lemma_absorb_one<S>(v: RunView<S>, source: usize, identity: Seq<char>, structure: S)
    requires
        base_inv(v),
        source < v.graph.len(),
        position(v.graph, identity) is None ==> v.graph.len() < usize::MAX,
    ensures
        base_inv(absorb_one(v, source, identity, structure)),
        v.graph.len() <= absorb_one(v, source, identity, structure).graph.len() <= v.graph.len()
            + 1,
        forall|i: int|
            0 <= i < v.graph.len() ==> (#[trigger] absorb_one(
                v,
                source,
                identity,
                structure,
            ).graph[i]).identity == v.graph[i].identity && absorb_one(
                v,
                source,
                identity,
                structure,
            ).graph[i].structure == v.graph[i].structure,
        forall|place: usize|
            place < v.graph.len() && absorb_one(v, source, identity, structure).pool.contains(
                place,
            ) ==> v.pool.contains(place),
{
    let w = absorb_one(v, source, identity, structure);
    assert(w.graph.len() <= usize::MAX) by {
        match position(v.graph, identity) {
            Some(child) => {
                lemma_with_edge_consistent(v.graph, source, child);
            },
            None => {},
        }
    }
    lemma_adopted(v.graph, source, identity, structure);
    if w.pool != v.pool {
        let place = v.graph.len() as usize;
        assert(w.pool == v.pool.push(place));
        assert forall|a: int, b: int|
            0 <= a < w.pool.len() && 0 <= b < w.pool.len() && a != b implies w.pool[a]
            != w.pool[b] by {
            if a < v.pool.len() {
                assert(w.pool[a] == v.pool[a]);
            }
            if b < v.pool.len() {
                assert(w.pool[b] == v.pool[b]);
            }
        }
        assert forall|other: usize| other < v.graph.len() && w.pool.contains(other) implies v.pool.contains(
            other,
        ) by {
            let k = choose|k: int| 0 <= k < w.pool.len() && w.pool[k] == other;
            assert(v.pool[k] == other);
        }
    }
    assert forall|k: int| 0 <= k < w.pool.len() implies (#[trigger] w.pool[k]) < w.graph.len() by {
        if k < v.pool.len() {
            assert(w.pool[k] == v.pool[k]);
        }
    }
}

/// What recording the products of a cleavage keeps: the invariant, every
/// fragment the graph had, and the worklist but for the pieces that are new,
/// which join it.
pub proof fn lemma_absorb<S>(v: RunView<S>, source: usize, products: Seq<(Seq<char>, S)>)
    requires
        base_inv(v),
        source < v.graph.len(),
        v.graph.len() + products.len() <= usize::MAX,
    ensures
        base_inv(absorb(v, source, products)),
        v.graph.len() <= absorb(v, source, products).graph.len() <= v.graph.len()
            + products.len(),
        forall|i: int|
            0 <= i < v.graph.len() ==> (#[trigger] absorb(v, source, products).graph[i]).identity
                == v.graph[i].identity && absorb(v, source, products).graph[i].structure
                == v.graph[i].structure,
        forall|place: usize|
            place < v.graph.len() && absorb(v, source, products).pool.contains(place)
                ==> v.pool.contains(place),
    decreases products.len(),
{
    if products.len() > 0 {
        let before = absorb(v, source, products.drop_last());
        lemma_absorb(v, source, products.drop_last());
        lemma_absorb_one(before, source, products.last().0, products.last().1);
    }
}

/// An answer changes the graph only when it completes a product set, and
/// then every product of the set passed the filter and all of them are
/// recorded. A set with a product that fails leaves no trace.
pub proof fn lemma_all_or_nothing<S>(v: RunView<S>, identity: Seq<char>, structure: S)
    requires
        run_inv(v),
        v.stage is Examining,
    ensures
        ({
            let w = after_identity(v, identity, structure);
            let products = v.stage->Examining_accepted.push((identity, structure));
            let sets = v.stage->Examining_sets;
            let set = v.stage->Examining_set;
            ||| w.graph == v.graph && w.seen == v.seen
            ||| {
                &&& products.len() == sets[set].len()
                &&& forall|k: int|
                    0 <= k < products.len() ==> passes(
                        v.min_fragment_size as nat,
                        sets[set][awaited_product(sets, set, k) as int] as nat,
                        (#[trigger] products[k]).0,
                    )
                &&& w.graph == absorb(v, v.stage->Examining_node, products).graph
                &&& w.seen == absorb(v, v.stage->Examining_node, products).seen
            }
        }),
{
    let node = v.stage->Examining_node;
    let rule = v.stage->Examining_rule;
    let sets = v.stage->Examining_sets;
    let set = v.stage->Examining_set;
    let products = v.stage->Examining_accepted.push((identity, structure));
    lemma_moving_on_keeps_graph(v, node, rule, sets, set + 1);
    lemma_moving_on_keeps_graph(absorb(v, node, products), node, rule, sets, set + 1);
}

/// A product that fails the filter leaves the graph and the identities seen
/// as they were, whatever came before it in its set.
pub proof fn lemma_rejection_leaves_no_trace<S>(v: RunView<S>, identity: Seq<char>, structure: S)
    requires
        v.stage is Examining,
        !passes(
            v.min_fragment_size as nat,
            v.stage->Examining_sets[v.stage->Examining_set][awaited_product(
                v.stage->Examining_sets,
                v.stage->Examining_set,
                v.stage->Examining_pos,
            ) as int] as nat,
            identity,
        ),
    ensures
        after_identity(v, identity, structure).graph == v.graph,
        after_identity(v, identity, structure).seen == v.seen,
{
    lemma_moving_on_keeps_graph(
        v,
        v.stage->Examining_node,
        v.stage->Examining_rule,
        v.stage->Examining_sets,
        v.stage->Examining_set + 1,
    );
}

/// The answer to an `Apply` request changes neither the graph nor the
/// identities seen, and brings no fragment into the worklist.
pub proof fn lemma_products_leave_graph<S>(v: RunView<S>, sets: Seq<Seq<usize>>)
    ensures
        after_products(v, sets).graph == v.graph,
        after_products(v, sets).seen == v.seen,
        forall|place: usize|
            after_products(v, sets).pool.contains(place) ==> v.pool.contains(place),
{
    if v.stage is Applying {
        lemma_moving_on_keeps_graph(v, v.stage->Applying_node, v.stage->Applying_rule, sets, 0);
    }
}

/// Each fragment is worked on once: a fragment that has left the worklist
/// never enters it again, whatever the engine answers.
pub proof fn lemma_never_enqueued_again<S>(
    v: RunView<S>,
    identity: Seq<char>,
    structure: S,
    place: usize,
)
    requires
        run_inv(v),
        v.stage is Examining,
        v.graph.len() + v.stage->Examining_accepted.len() < usize::MAX,
        place < v.graph.len(),
        !v.pool.contains(place),
    ensures
        !after_identity(v, identity, structure).pool.contains(place),
{
    let node = v.stage->Examining_node;
    let rule = v.stage->Examining_rule;
    let sets = v.stage->Examining_sets;
    let set = v.stage->Examining_set;
    let products = v.stage->Examining_accepted.push((identity, structure));
    lemma_moving_on_keeps_graph(v, node, rule, sets, set + 1);
    lemma_moving_on_keeps_graph(absorb(v, node, products), node, rule, sets, set + 1);
    lemma_absorb(v, node, products);
}

/// An answer to an `Identify` request keeps the invariant of the
/// decomposition, as long as the fragments of the graph can be counted by a
/// machine integer.
pub proof fn lemma_after_identity_inv<S>(v: RunView<S>, identity: Seq<char>, structure: S)
    requires
        run_inv(v),
        v.stage is Examining,
        v.graph.len() + v.stage->Examining_accepted.len() < usize::MAX,
    ensures
        run_inv(after_identity(v, identity, structure)),
{
    let node = v.stage->Examining_node;
    let rule = v.stage->Examining_rule;
    let sets = v.stage->Examining_sets;
    let set = v.stage->Examining_set;
    let pos = v.stage->Examining_pos;
    let accepted = v.stage->Examining_accepted;
    let products = accepted.push((identity, structure));
    let product = awaited_product(sets, set, pos);
    if !passes(v.min_fragment_size as nat, sets[set][product as int] as nat, identity) {
        lemma_take_set_inv(v, node, rule, sets, set + 1);
    } else if pos + 1 < sets[set].len() {
        let w = after_identity(v, identity, structure);
        assert forall|k: int| 0 <= k < pos + 1 implies passes(
            v.min_fragment_size as nat,
            sets[set][awaited_product(sets, set, k) as int] as nat,
            (#[trigger] products[k]).0,
        ) by {
            if k < pos {
                assert(products[k] == accepted[k]);
            }
        }
    } else {
        let mid = absorb(v, node, products);
        lemma_absorb(v, node, products);
        lemma_absorb_stage(v, node, products);
        if mid.pool.contains(node) {
            assert(v.pool.contains(node));
        }
        lemma_take_set_inv(mid, node, rule, sets, set + 1);
    }
}

/// Recording products changes neither the filter, nor the selection of
/// rules, nor what the decomposition is waiting for.
pub proof fn lemma_absorb_stage<S>(v: RunView<S>, source: usize, products: Seq<(Seq<char>, S)>)
    ensures
        absorb(v, source, products).min_fragment_size == v.min_fragment_size,
        absorb(v, source, products).allowed == v.allowed,
        absorb(v, source, products).stage == v.stage,
    decreases products.len(),
{
    if products.len() > 0 {
        lemma_absorb_stage(v, source, products.drop_last());
    }
}

/// An answer to an `Apply` request keeps the invariant of the decomposition.
pub proof fn lemma_after_products_inv<S>(v: RunView<S>, sets: Seq<Seq<usize>>)
    requires
        run_inv(v),
        v.stage is Applying,
        countable(sets),
    ensures
        run_inv(after_products(v, sets)),
{
    lemma_take_set_inv(v, v.stage->Applying_node, v.stage->Applying_rule, sets, 0);
}

/// The work that a paused decomposition has before it, as far as it can be
/// told without the engine: the fragments not yet done with, the rules not
/// yet applied to the fragment in hand (counted twice, and once more while
/// the answer of the rule in hand is awaited), the product sets of that rule
/// not yet looked at, and the products of the set in hand not yet examined.
pub open spec fn backlog<S>(v: RunView<S>) -> (nat, nat, nat, nat) {
    match v.stage {
        Stage::Applying { node, rule } => (
            v.pool.len() + 1,
            (2 * (RULE_COUNT - rule) + 1) as nat,
            0,
            0,
        ),
        Stage::Examining { node, rule, sets, set, pos, accepted } => (
            v.pool.len() + 1,
            (2 * (RULE_COUNT - rule)) as nat,
            (sets.len() - set) as nat,
            (sets[set].len() - pos) as nat,
        ),
        Stage::Finished => (0, 0, 0, 0),
    }
}

/// Whether one backlog is smaller than another: they are compared part by
/// part, the first part that differs decides.
pub open spec fn smaller(a: (nat, nat, nat, nat), b: (nat, nat, nat, nat)) -> bool {
    ||| a.0 < b.0
    ||| a.0 == b.0 && a.1 < b.1
    ||| a.0 == b.0 && a.1 == b.1 && a.2 < b.2
    ||| a.0 == b.0 && a.1 == b.1 && a.2 == b.2 && a.3 < b.3
}

/// Moving on from a product set to the next pause makes the backlog smaller
/// than it was while the set, or the rule that gave it, was in hand.
proof fn lemma_moving_on_lessens<S>(
    v: RunView<S>,
    node: usize,
    rule: usize,
    sets: Seq<Seq<usize>>,
    from: int,
)
    requires
        rule < RULE_COUNT,
        0 <= from <= sets.len(),
    ensures
        ({
            let w = take_set(v, node, rule, sets, from);
            let b = backlog(w);
            ||| b.0 < v.pool.len() + 1
            ||| b.0 == v.pool.len() + 1 && b.1 < 2 * (RULE_COUNT - rule)
            ||| b.0 == v.pool.len() + 1 && b.1 == 2 * (RULE_COUNT - rule) && b.2 <= sets.len()
                - from && w.stage is Examining
        }),
{
    lemma_next_set(sets, from);
    lemma_next_rule(v.allowed, (rule + 1) as usize);
    lemma_next_rule(v.allowed, 0);
    lemma_next_node(v.graph, v.pool);
}

/// Recording products that are all known to the graph leaves the worklist
/// as it is.
proof fn lemma_absorb_known<S>(v: RunView<S>, source: usize, products: Seq<(Seq<char>, S)>)
    requires
        base_inv(v),
        source < v.graph.len(),
        v.graph.len() + products.len() <= usize::MAX,
        absorb(v, source, products).graph.len() == v.graph.len(),
    ensures
        absorb(v, source, products).pool == v.pool,
    decreases products.len(),
{
    if products.len() > 0 {
        let before = absorb(v, source, products.drop_last());
        lemma_absorb(v, source, products.drop_last());
        lemma_absorb_one(before, source, products.last().0, products.last().1);
        lemma_adopted(before.graph, source, products.last().0, products.last().1);
        lemma_absorb_known(v, source, products.drop_last());
    }
}

/// The answer to an `Apply` request makes the backlog smaller and leaves the
/// graph as it is.
pub proof fn lemma_products_lessen_backlog<S>(v: RunView<S>, sets: Seq<Seq<usize>>)
    requires
        run_inv(v),
        v.stage is Applying,
    ensures
        smaller(backlog(after_products(v, sets)), backlog(v)),
        after_products(v, sets).graph == v.graph,
{
    lemma_moving_on_lessens(v, v.stage->Applying_node, v.stage->Applying_rule, sets, 0);
    lemma_moving_on_keeps_graph(v, v.stage->Applying_node, v.stage->Applying_rule, sets, 0);
}

/// The answer to an `Identify` request makes the graph larger or the backlog
/// smaller. So a decomposition ends after finitely many answers whenever the
/// engine gives finitely many different fragments.
pub proof fn lemma_identity_grows_graph_or_lessens_backlog<S>(
    v: RunView<S>,
    identity: Seq<char>,
    structure: S,
)
    requires
        run_inv(v),
        v.stage is Examining,
        v.graph.len() + v.stage->Examining_accepted.len() < usize::MAX,
    ensures
        v.graph.len() <= after_identity(v, identity, structure).graph.len(),
        v.graph.len() < after_identity(v, identity, structure).graph.len() || smaller(
            backlog(after_identity(v, identity, structure)),
            backlog(v),
        ),
{
    let node = v.stage->Examining_node;
    let rule = v.stage->Examining_rule;
    let sets = v.stage->Examining_sets;
    let set = v.stage->Examining_set;
    let products = v.stage->Examining_accepted.push((identity, structure));
    let mid = absorb(v, node, products);
    lemma_moving_on_lessens(v, node, rule, sets, set + 1);
    lemma_moving_on_lessens(mid, node, rule, sets, set + 1);
    lemma_moving_on_keeps_graph(v, node, rule, sets, set + 1);
    lemma_moving_on_keeps_graph(mid, node, rule, sets, set + 1);
    lemma_absorb(v, node, products);
    if mid.graph.len() == v.graph.len() {
        lemma_absorb_known(v, node, products);
    }
}

} // verus!
