//! What a decomposition finds when a chemistry engine answers its requests.
//!
//! The engine is taken as it is: two functions, one that gives the product
//! sets of a rule applied to a structure, and one that gives the identity and
//! the sanitized structure of one product. A decomposition that was handed
//! the answers of the engine, and is finished, has recorded the cleavages of
//! the engine and nothing else: the children of every fragment are the
//! pieces that an allowed rule cleaves it into in a split of which every
//! piece passes the filter.

use super::filter::passes;
use super::graph::{
    child_of, has_child_named, is_adjacency, lemma_adopted, lemma_adopted_edges,
    lemma_position_unique, parent_of, position, NodeView,
};
use super::leaves::{is_leaf, lemma_leaves_are_terminals};
use super::laws::{lemma_absorb, lemma_absorb_one, lemma_absorb_stage};
use super::order::{lemma_size_order_covers, lemma_size_order_exists, size_order};
use super::rules::{next_rule, rule_allowed, RULE_COUNT};
use super::run::{
    absorb, absorb_one, after_identity, after_products, awaited_product, base_inv, lemma_next_rule,
    lemma_next_set, next_node, next_set, run_inv, started, take_node, take_rule, take_set, RunView,
    Stage,
};
use vstd::prelude::*;

verus! {

/// A chemistry engine, as far as a decomposition meets it.
#[verifier::reject_recursive_types(S)]
pub struct Engine<S> {
    /// The product sets that a rule of the table gives for a structure, each
    /// product by its atom count.
    pub products: spec_fn(S, usize) -> Seq<Seq<usize>>,
    /// The identity and the sanitized structure of one product: of the
    /// product at a place of a product set that a rule gives for a structure.
    pub identify: spec_fn(S, usize, int, int) -> (Seq<char>, S),
}

/// The structure behind the fragment at `node`.
pub open spec fn structure_at<S>(g: Seq<NodeView<S>>, node: usize) -> S {
    g[node as int].structure->0
}

/// The identity of the product at `place` of product set `set` that `rule`
/// gives for a structure.
pub open spec fn piece<S>(e: Engine<S>, structure: S, rule: usize, set: int, place: int) -> Seq<
    char,
> {
    (e.identify)(structure, rule, set, place).0
}

/// Whether `rule` gives a product set `set` for the structure, every product
/// of which passes the filter.
pub open spec fn split_accepted<S>(
    e: Engine<S>,
    min_fragment_size: usize,
    structure: S,
    rule: usize,
    set: int,
) -> bool {
    &&& 0 <= set < (e.products)(structure, rule).len()
    &&& forall|place: int|
        0 <= place < (e.products)(structure, rule)[set].len() ==> passes(
            min_fragment_size as nat,
            (e.products)(structure, rule)[set][place] as nat,
            #[trigger] piece(e, structure, rule, set, place),
        )
}

/// Whether the product at `place` of set `set` of `rule` is a piece that the
/// decomposition is to record: the rule may fire and the split is accepted.
pub open spec fn is_cleavage<S>(
    e: Engine<S>,
    min_fragment_size: usize,
    allowed: Option<Set<usize>>,
    structure: S,
    rule: usize,
    set: int,
    place: int,
) -> bool {
    &&& rule < RULE_COUNT
    &&& rule_allowed(allowed, rule)
    &&& split_accepted(e, min_fragment_size, structure, rule, set)
    &&& 0 <= place < (e.products)(structure, rule)[set].len()
}

/// Whether the engine cleaves the structure into a piece with the given
/// identity.
pub open spec fn cleaves_into<S>(
    e: Engine<S>,
    min_fragment_size: usize,
    allowed: Option<Set<usize>>,
    structure: S,
    identity: Seq<char>,
) -> bool {
    exists|rule: usize, set: int, place: int|
        #[trigger] is_cleavage(e, min_fragment_size, allowed, structure, rule, set, place)
            && piece(e, structure, rule, set, place) == identity
}

/// Whether the decomposition has product set `set` of `rule` on the fragment
/// at `node` behind it, given that it is working on the fragment at
/// `current` and has the sets before `from` of `rule_in_hand` behind it.
pub open spec fn behind_from<S>(
    v: RunView<S>,
    current: usize,
    rule_in_hand: usize,
    from: int,
    node: usize,
    rule: usize,
    set: int,
) -> bool {
    &&& node < v.graph.len()
    &&& !v.pool.contains(node)
    &&& (node != current || rule < rule_in_hand || (rule == rule_in_hand && set < from))
}

/// Whether the decomposition has product set `set` of `rule` on the fragment
/// at `node` behind it.
pub open spec fn behind<S>(v: RunView<S>, node: usize, rule: usize, set: int) -> bool {
    match v.stage {
        Stage::Applying { node: current, rule: rule_in_hand } => behind_from(
            v,
            current,
            rule_in_hand,
            0,
            node,
            rule,
            set,
        ),
        Stage::Examining { node: current, rule: rule_in_hand, sets, set: from, pos, accepted } => behind_from(
            v,
            current,
            rule_in_hand,
            from,
            node,
            rule,
            set,
        ),
        Stage::Finished => node < v.graph.len() && !v.pool.contains(node),
    }
}

/// Whether every fragment has a structure behind it.
pub open spec fn all_structured<S>(g: Seq<NodeView<S>>) -> bool {
    forall|i: int| 0 <= i < g.len() ==> (#[trigger] g[i]).structure is Some
}

/// Whether every edge of the graph is a cleavage of the engine.
pub open spec fn edges_sound<S>(e: Engine<S>, v: RunView<S>) -> bool {
    forall|p: usize, c: usize|
        p < v.graph.len() && c < v.graph.len() && #[trigger] child_of(v.graph, p, c)
            ==> cleaves_into(
            e,
            v.min_fragment_size,
            v.allowed,
            structure_at(v.graph, p),
            v.graph[c as int].identity,
        )
}

/// Whether every cleavage that lies behind the given point is an edge of the
/// graph.
pub open spec fn complete_upto<S>(
    e: Engine<S>,
    v: RunView<S>,
    current: usize,
    rule_in_hand: usize,
    from: int,
) -> bool {
    forall|node: usize, rule: usize, set: int, place: int|
        #[trigger] behind_from(v, current, rule_in_hand, from, node, rule, set)
            && #[trigger] is_cleavage(
            e,
            v.min_fragment_size,
            v.allowed,
            structure_at(v.graph, node),
            rule,
            set,
            place,
        ) ==> has_child_named(
            v.graph,
            node,
            piece(e, structure_at(v.graph, node), rule, set, place),
        )
}

/// Whether every cleavage that lies behind the decomposition is an edge of
/// the graph.
pub open spec fn edges_complete<S>(e: Engine<S>, v: RunView<S>) -> bool {
    forall|node: usize, rule: usize, set: int, place: int|
        #[trigger] behind(v, node, rule, set) && #[trigger] is_cleavage(
            e,
            v.min_fragment_size,
            v.allowed,
            structure_at(v.graph, node),
            rule,
            set,
            place,
        ) ==> has_child_named(
            v.graph,
            node,
            piece(e, structure_at(v.graph, node), rule, set, place),
        )
}

/// Whether an examination in progress rests on answers of the engine.
pub open spec fn answers_agree<S>(e: Engine<S>, v: RunView<S>) -> bool {
    match v.stage {
        Stage::Examining { node, rule, sets, set, pos, accepted } => {
            &&& sets == (e.products)(structure_at(v.graph, node), rule)
            &&& forall|k: int|
                0 <= k < pos ==> #[trigger] accepted[k] == (e.identify)(
                    structure_at(v.graph, node),
                    rule,
                    set,
                    awaited_product(sets, set, k) as int,
                )
        },
        _ => true,
    }
}

/// Whether the decomposition agrees with the engine: it has recorded
/// cleavages of the engine only, and all of those that lie behind it.
pub open spec fn faithful<S>(e: Engine<S>, v: RunView<S>) -> bool {
    &&& all_structured(v.graph)
    &&& edges_sound(e, v)
    &&& edges_complete(e, v)
    &&& answers_agree(e, v)
}

/// What the engine answers to the request of the decomposition, where that
/// is an `Apply` request.
pub open spec fn products_answer<S>(e: Engine<S>, v: RunView<S>) -> Seq<Seq<usize>> {
    (e.products)(structure_at(v.graph, v.stage->Applying_node), v.stage->Applying_rule)
}

/// What the engine answers to the request of the decomposition, where that
/// is an `Identify` request.
pub open spec fn identity_answer<S>(e: Engine<S>, v: RunView<S>) -> (Seq<char>, S) {
    (e.identify)(
        structure_at(v.graph, v.stage->Examining_node),
        v.stage->Examining_rule,
        v.stage->Examining_set,
        awaited_product(
            v.stage->Examining_sets,
            v.stage->Examining_set,
            v.stage->Examining_pos,
        ) as int,
    )
}

/// Where every fragment has a structure, none of the worklist is passed
/// over.
proof fn lemma_none_passed_over<S>(g: Seq<NodeView<S>>, pool: Seq<usize>)
    requires
        all_structured(g),
        forall|k: int| 0 <= k < pool.len() ==> (#[trigger] pool[k]) < g.len(),
    ensures
        next_node(g, pool) == pool,
{
}

/// Taking the next fragment from the worklist keeps the decomposition
/// faithful, where all cleavages of the fragments outside the worklist are
/// recorded.
proof fn lemma_take_node_faithful<S>(e: Engine<S>, u: RunView<S>, current: usize)
    requires
        base_inv(u),
        all_structured(u.graph),
        edges_sound(e, u),
        complete_upto(e, u, current, RULE_COUNT, 0),
    ensures
        faithful(e, take_node(u)),
{
    let w = take_node(u);
    lemma_next_rule(u.allowed, 0);
    lemma_none_passed_over(u.graph, u.pool);
    assert forall|node: usize, rule: usize, set: int, place: int|
        #[trigger] behind(w, node, rule, set) && #[trigger] is_cleavage(
            e,
            w.min_fragment_size,
            w.allowed,
            structure_at(w.graph, node),
            rule,
            set,
            place,
        ) implies has_child_named(
        w.graph,
        node,
        piece(e, structure_at(w.graph, node), rule, set, place),
    ) by {
        if next_rule(u.allowed, 0) < RULE_COUNT {
            if u.pool.len() > 0 {
                let taken = u.pool.last();
                assert(w.pool == u.pool.drop_last());
                if node != taken {
                    if u.pool.contains(node) {
                        let k = choose|k: int| 0 <= k < u.pool.len() && u.pool[k] == node;
                        assert(w.pool[k] == node);
                    }
                    assert(behind_from(u, current, RULE_COUNT, 0, node, rule, set));
                }
            } else {
                assert(behind_from(u, current, RULE_COUNT, 0, node, rule, set));
            }
        }
    }
}

/// Moving on to the next rule keeps the decomposition faithful, where all
/// cleavages by the rules before `from` are recorded.
proof fn lemma_take_rule_faithful<S>(e: Engine<S>, u: RunView<S>, node: usize, from: usize)
    requires
        base_inv(u),
        all_structured(u.graph),
        edges_sound(e, u),
        node < u.graph.len(),
        !u.pool.contains(node),
        complete_upto(e, u, node, from, 0),
    ensures
        faithful(e, take_rule(u, node, from)),
{
    let w = take_rule(u, node, from);
    lemma_next_rule(u.allowed, from);
    let rule_in_hand = next_rule(u.allowed, from);
    if rule_in_hand < RULE_COUNT {
        assert forall|other: usize, rule: usize, set: int, place: int|
            #[trigger] behind(w, other, rule, set) && #[trigger] is_cleavage(
                e,
                w.min_fragment_size,
                w.allowed,
                structure_at(w.graph, other),
                rule,
                set,
                place,
            ) implies has_child_named(
            w.graph,
            other,
            piece(e, structure_at(w.graph, other), rule, set, place),
        ) by {
            assert(behind_from(u, node, from, 0, other, rule, set));
        }
    } else {
        assert forall|other: usize, rule: usize, set: int, place: int|
            #[trigger] behind_from(u, node, RULE_COUNT, 0, other, rule, set)
                && #[trigger] is_cleavage(
                e,
                u.min_fragment_size,
                u.allowed,
                structure_at(u.graph, other),
                rule,
                set,
                place,
            ) implies has_child_named(
            u.graph,
            other,
            piece(e, structure_at(u.graph, other), rule, set, place),
        ) by {
            assert(behind_from(u, node, from, 0, other, rule, set));
        }
        lemma_take_node_faithful(e, u, node);
    }
}

/// Moving on to the next product set keeps the decomposition faithful, where
/// all cleavages by the sets before `from` are recorded.
proof fn lemma_take_set_faithful<S>(
    e: Engine<S>,
    u: RunView<S>,
    node: usize,
    rule: usize,
    sets: Seq<Seq<usize>>,
    from: int,
)
    requires
        base_inv(u),
        all_structured(u.graph),
        edges_sound(e, u),
        node < u.graph.len(),
        !u.pool.contains(node),
        rule < RULE_COUNT,
        0 <= from,
        sets == (e.products)(structure_at(u.graph, node), rule),
        complete_upto(e, u, node, rule, from),
    ensures
        faithful(e, take_set(u, node, rule, sets, from)),
{
    let w = take_set(u, node, rule, sets, from);
    lemma_next_set(sets, from);
    let set_in_hand = next_set(sets, from);
    if set_in_hand < sets.len() {
        assert forall|other: usize, r: usize, set: int, place: int|
            #[trigger] behind(w, other, r, set) && #[trigger] is_cleavage(
                e,
                w.min_fragment_size,
                w.allowed,
                structure_at(w.graph, other),
                r,
                set,
                place,
            ) implies has_child_named(
            w.graph,
            other,
            piece(e, structure_at(w.graph, other), r, set, place),
        ) by {
            if other == node && r == rule && from <= set {
                assert(sets[set].len() == 0);
            } else {
                assert(behind_from(u, node, rule, from, other, r, set));
            }
        }
    } else {
        assert forall|other: usize, r: usize, set: int, place: int|
            #[trigger] behind_from(u, node, (rule + 1) as usize, 0, other, r, set)
                && #[trigger] is_cleavage(
                e,
                u.min_fragment_size,
                u.allowed,
                structure_at(u.graph, other),
                r,
                set,
                place,
            ) implies has_child_named(
            u.graph,
            other,
            piece(e, structure_at(u.graph, other), r, set, place),
        ) by {
            if other == node && r == rule && from <= set {
                if set < sets.len() {
                    assert(sets[set].len() == 0);
                }
            } else {
                assert(behind_from(u, node, rule, from, other, r, set));
            }
        }
        lemma_take_rule_faithful(e, u, node, (rule + 1) as usize);
    }
}

/// Recording a piece that is a cleavage of the engine keeps the edges sound
/// and every edge that was there, and puts the piece, if it is new, in the
/// worklist.
proof fn lemma_absorb_one_faithful<S>(
    e: Engine<S>,
    v: RunView<S>,
    source: usize,
    rule: usize,
    set: int,
    place: int,
)
    requires
        base_inv(v),
        all_structured(v.graph),
        edges_sound(e, v),
        source < v.graph.len(),
        v.graph.len() < usize::MAX,
        is_cleavage(
            e,
            v.min_fragment_size,
            v.allowed,
            structure_at(v.graph, source),
            rule,
            set,
            place,
        ),
    ensures
        ({
            let answer = (e.identify)(structure_at(v.graph, source), rule, set, place);
            let w = absorb_one(v, source, answer.0, answer.1);
            &&& all_structured(w.graph)
            &&& edges_sound(e, w)
            &&& has_child_named(w.graph, source, answer.0)
            &&& forall|p: usize, name: Seq<char>|
                p < v.graph.len() && #[trigger] has_child_named(v.graph, p, name)
                    ==> has_child_named(w.graph, p, name)
            &&& forall|n: usize| v.graph.len() <= n < w.graph.len() ==> w.pool.contains(n)
            &&& forall|n: usize| v.pool.contains(n) ==> w.pool.contains(n)
        }),
{
    let answer = (e.identify)(structure_at(v.graph, source), rule, set, place);
    let w = absorb_one(v, source, answer.0, answer.1);
    lemma_absorb_one(v, source, answer.0, answer.1);
    lemma_adopted(v.graph, source, answer.0, answer.1);
    lemma_adopted_edges(v.graph, source, answer.0, answer.1);
    assert forall|p: usize, c: usize|
        p < w.graph.len() && c < w.graph.len() && #[trigger] child_of(
            w.graph,
            p,
            c,
        ) implies cleaves_into(
        e,
        w.min_fragment_size,
        w.allowed,
        structure_at(w.graph, p),
        w.graph[c as int].identity,
    ) by {
        if p < v.graph.len() && c < v.graph.len() && child_of(v.graph, p, c) {
            assert(w.graph[p as int].structure == v.graph[p as int].structure);
            assert(w.graph[c as int].identity == v.graph[c as int].identity);
        } else {
            assert(p == source && w.graph[c as int].identity == answer.0);
            assert(w.graph[p as int].structure == v.graph[p as int].structure);
            assert(is_cleavage(
                e,
                w.min_fragment_size,
                w.allowed,
                structure_at(w.graph, p),
                rule,
                set,
                place,
            ));
        }
    }
    assert forall|p: usize, name: Seq<char>|
        p < v.graph.len() && #[trigger] has_child_named(v.graph, p, name) implies has_child_named(
        w.graph,
        p,
        name,
    ) by {
        let c = choose|c: usize|
            c < v.graph.len() && (#[trigger] v.graph[c as int]).identity == name && child_of(
                v.graph,
                p,
                c,
            );
        assert(child_of(w.graph, p, c));
        assert(w.graph[c as int].identity == name);
    }
    assert forall|n: usize| v.pool.contains(n) implies w.pool.contains(n) by {
        let k = choose|k: int| 0 <= k < v.pool.len() && v.pool[k] == n;
        if w.pool != v.pool {
            assert(w.pool[k] == n);
        }
    }
    assert forall|n: usize| v.graph.len() <= n < w.graph.len() implies w.pool.contains(n) by {
        assert(position(v.graph, answer.0) is None);
        assert(!v.seen.contains(answer.0));
        assert(w.pool == v.pool.push(v.graph.len() as usize));
        assert(w.pool[v.pool.len() as int] == n);
    }
    assert forall|i: int| 0 <= i < w.graph.len() implies (#[trigger] w.graph[i]).structure is Some by {
        if i < v.graph.len() {
            assert(v.graph[i].structure is Some);
        }
    }
}

/// Recording the products of an accepted split keeps the edges sound and
/// every edge that was there, makes every product a child of the source,
/// and puts the fragments that are new in the worklist.
proof fn lemma_absorb_faithful<S>(
    e: Engine<S>,
    v: RunView<S>,
    source: usize,
    rule: usize,
    set: int,
    places: Seq<int>,
    products: Seq<(Seq<char>, S)>,
)
    requires
        base_inv(v),
        all_structured(v.graph),
        edges_sound(e, v),
        source < v.graph.len(),
        v.graph.len() + products.len() <= usize::MAX,
        places.len() == products.len(),
        forall|k: int|
            0 <= k < products.len() ==> is_cleavage(
                e,
                v.min_fragment_size,
                v.allowed,
                structure_at(v.graph, source),
                rule,
                set,
                #[trigger] places[k],
            ) && products[k] == (e.identify)(structure_at(v.graph, source), rule, set, places[k]),
    ensures
        ({
            let w = absorb(v, source, products);
            &&& base_inv(w)
            &&& all_structured(w.graph)
            &&& edges_sound(e, w)
            &&& v.graph.len() <= w.graph.len()
            &&& forall|i: int|
                0 <= i < v.graph.len() ==> (#[trigger] w.graph[i]).structure == v.graph[i].structure
            &&& forall|k: int|
                0 <= k < products.len() ==> has_child_named(
                    w.graph,
                    source,
                    (#[trigger] products[k]).0,
                )
            &&& forall|p: usize, name: Seq<char>|
                p < v.graph.len() && #[trigger] has_child_named(v.graph, p, name)
                    ==> has_child_named(w.graph, p, name)
            &&& forall|n: usize| v.graph.len() <= n < w.graph.len() ==> w.pool.contains(n)
            &&& forall|n: usize| v.pool.contains(n) ==> w.pool.contains(n)
        }),
    decreases products.len(),
{
    if products.len() > 0 {
        let shorter = products.drop_last();
        let u = absorb(v, source, shorter);
        let w = absorb(v, source, products);
        let last = products.len() - 1;
        assert forall|k: int| 0 <= k < shorter.len() implies is_cleavage(
            e,
            v.min_fragment_size,
            v.allowed,
            structure_at(v.graph, source),
            rule,
            set,
            #[trigger] places.drop_last()[k],
        ) && shorter[k] == (e.identify)(
            structure_at(v.graph, source),
            rule,
            set,
            places.drop_last()[k],
        ) by {
            assert(places.drop_last()[k] == places[k]);
            assert(shorter[k] == products[k]);
        }
        lemma_absorb_faithful(e, v, source, rule, set, places.drop_last(), shorter);
        lemma_absorb(v, source, shorter);
        lemma_absorb_stage(v, source, shorter);
        assert(u.graph[source as int].structure == v.graph[source as int].structure);
        assert(is_cleavage(
            e,
            v.min_fragment_size,
            v.allowed,
            structure_at(v.graph, source),
            rule,
            set,
            places[last],
        ));
        assert(products[last] == (e.identify)(
            structure_at(v.graph, source),
            rule,
            set,
            places[last],
        ));
        lemma_absorb_one_faithful(e, u, source, rule, set, places[last]);
        lemma_absorb_one(u, source, products[last].0, products[last].1);
        assert forall|k: int| 0 <= k < products.len() implies has_child_named(
            w.graph,
            source,
            (#[trigger] products[k]).0,
        ) by {
            if k < last {
                assert(has_child_named(u.graph, source, shorter[k].0));
            }
        }
        assert forall|p: usize, name: Seq<char>|
            p < v.graph.len() && #[trigger] has_child_named(
                v.graph,
                p,
                name,
            ) implies has_child_named(w.graph, p, name) by {
            assert(has_child_named(u.graph, p, name));
        }
        assert forall|n: usize| v.graph.len() <= n < w.graph.len() implies w.pool.contains(n) by {
            if n < u.graph.len() {
                assert(u.pool.contains(n));
            }
        }
        assert forall|n: usize| v.pool.contains(n) implies w.pool.contains(n) by {
            assert(u.pool.contains(n));
        }
        assert forall|i: int| 0 <= i < v.graph.len() implies (#[trigger] w.graph[i]).structure
            == v.graph[i].structure by {
            assert(u.graph[i].structure == v.graph[i].structure);
        }
    }
}

/// A decomposition is faithful to every engine when it starts.
pub proof fn lemma_started_faithful<S>(
    e: Engine<S>,
    identity: Seq<char>,
    structure: S,
    min_fragment_size: usize,
    allowed: Option<Set<usize>>,
)
    ensures
        faithful(e, started(identity, structure, min_fragment_size, allowed)),
{
    let u = RunView {
        graph: seq![super::graph::fresh_node(identity, structure)],
        pool: seq![0usize],
        seen: Set::empty(),
        min_fragment_size,
        allowed,
        stage: Stage::Finished,
    };
    assert(u.pool[0] == 0);
    assert forall|p: usize, c: usize|
        #![trigger child_of(u.graph, p, c)]
        #![trigger super::graph::parent_of(u.graph, c, p)]
        p < u.graph.len() && c < u.graph.len() implies (child_of(u.graph, p, c)
        <==> super::graph::parent_of(u.graph, c, p)) by {}
    assert(base_inv(u));
    lemma_take_node_faithful(e, u, 0);
}

/// A faithful decomposition that is handed the engine's answer to its
/// `Apply` request stays faithful.
pub proof fn lemma_products_keep_faithful<S>(e: Engine<S>, v: RunView<S>)
    requires
        run_inv(v),
        faithful(e, v),
        v.stage is Applying,
    ensures
        faithful(e, after_products(v, products_answer(e, v))),
{
    let node = v.stage->Applying_node;
    let rule = v.stage->Applying_rule;
    assert forall|other: usize, r: usize, set: int, place: int|
        #[trigger] behind_from(v, node, rule, 0, other, r, set) && #[trigger] is_cleavage(
            e,
            v.min_fragment_size,
            v.allowed,
            structure_at(v.graph, other),
            r,
            set,
            place,
        ) implies has_child_named(
        v.graph,
        other,
        piece(e, structure_at(v.graph, other), r, set, place),
    ) by {
        assert(behind(v, other, r, set));
    }
    lemma_take_set_faithful(e, v, node, rule, products_answer(e, v), 0);
}

/// A faithful decomposition that is handed the engine's answer to its
/// `Identify` request stays faithful.
pub proof fn lemma_identity_keeps_faithful<S>(e: Engine<S>, v: RunView<S>)
    requires
        run_inv(v),
        faithful(e, v),
        v.stage is Examining,
        v.graph.len() + v.stage->Examining_accepted.len() < usize::MAX,
    ensures
        faithful(e, after_identity(v, identity_answer(e, v).0, identity_answer(e, v).1)),
{
    let node = v.stage->Examining_node;
    let rule = v.stage->Examining_rule;
    let sets = v.stage->Examining_sets;
    let set = v.stage->Examining_set;
    let pos = v.stage->Examining_pos;
    let accepted = v.stage->Examining_accepted;
    let s = structure_at(v.graph, node);
    let answer = identity_answer(e, v);
    let order = size_order(sets[set]);
    let product = awaited_product(sets, set, pos);
    let products = accepted.push(answer);
    let w = after_identity(v, answer.0, answer.1);
    lemma_size_order_exists(sets[set]);
    if !passes(v.min_fragment_size as nat, sets[set][product as int] as nat, answer.0) {
        assert forall|other: usize, r: usize, t: int, place: int|
            #[trigger] behind_from(v, node, rule, set + 1, other, r, t) && #[trigger] is_cleavage(
                e,
                v.min_fragment_size,
                v.allowed,
                structure_at(v.graph, other),
                r,
                t,
                place,
            ) implies has_child_named(
            v.graph,
            other,
            piece(e, structure_at(v.graph, other), r, t, place),
        ) by {
            if other == node && r == rule && t == set {
                assert(piece(e, s, rule, set, product as int) == answer.0);
            } else {
                assert(behind(v, other, r, t));
            }
        }
        lemma_take_set_faithful(e, v, node, rule, sets, set + 1);
    } else if pos + 1 < sets[set].len() {
        assert forall|other: usize, r: usize, t: int, place: int|
            #[trigger] behind(w, other, r, t) && #[trigger] is_cleavage(
                e,
                w.min_fragment_size,
                w.allowed,
                structure_at(w.graph, other),
                r,
                t,
                place,
            ) implies has_child_named(
            w.graph,
            other,
            piece(e, structure_at(w.graph, other), r, t, place),
        ) by {
            assert(behind(v, other, r, t));
        }
        assert forall|k: int| 0 <= k < pos + 1 implies #[trigger] products[k] == (e.identify)(
            s,
            rule,
            set,
            awaited_product(sets, set, k) as int,
        ) by {
            if k < pos {
                assert(products[k] == accepted[k]);
            }
        }
    } else {
        let places = Seq::new(products.len(), |k: int| order[k] as int);
        assert forall|k: int| 0 <= k < products.len() implies #[trigger] products[k]
            == (e.identify)(s, rule, set, order[k] as int) && passes(
            v.min_fragment_size as nat,
            sets[set][order[k] as int] as nat,
            products[k].0,
        ) by {
            if k < pos {
                assert(products[k] == accepted[k]);
                assert(awaited_product(sets, set, k) == order[k]);
            }
        }
        assert forall|place: int| 0 <= place < sets[set].len() implies passes(
            v.min_fragment_size as nat,
            sets[set][place] as nat,
            #[trigger] piece(e, s, rule, set, place),
        ) by {
            lemma_size_order_covers(sets[set], order, place);
            let k = choose|k: int| 0 <= k < order.len() && #[trigger] order[k] == place;
            assert(products[k] == (e.identify)(s, rule, set, order[k] as int));
        }
        assert(split_accepted(e, v.min_fragment_size, s, rule, set));
        assert forall|k: int| 0 <= k < products.len() implies is_cleavage(
            e,
            v.min_fragment_size,
            v.allowed,
            s,
            rule,
            set,
            #[trigger] places[k],
        ) && products[k] == (e.identify)(s, rule, set, places[k]) by {
            assert(order[k] < sets[set].len());
        }
        let mid = absorb(v, node, products);
        lemma_absorb_faithful(e, v, node, rule, set, places, products);
        lemma_absorb(v, node, products);
        lemma_absorb_stage(v, node, products);
        if mid.pool.contains(node) {
            assert(v.pool.contains(node));
        }
        assert(structure_at(mid.graph, node) == s);
        assert forall|other: usize, r: usize, t: int, place: int|
            #[trigger] behind_from(mid, node, rule, set + 1, other, r, t)
                && #[trigger] is_cleavage(
                e,
                mid.min_fragment_size,
                mid.allowed,
                structure_at(mid.graph, other),
                r,
                t,
                place,
            ) implies has_child_named(
            mid.graph,
            other,
            piece(e, structure_at(mid.graph, other), r, t, place),
        ) by {
            if other >= v.graph.len() {
                assert(mid.pool.contains(other));
            }
            if v.pool.contains(other) {
                assert(mid.pool.contains(other));
            }
            assert(mid.graph[other as int].structure == v.graph[other as int].structure);
            if other == node && r == rule && t == set {
                lemma_size_order_covers(sets[set], order, place);
                let k = choose|k: int| 0 <= k < order.len() && #[trigger] order[k] == place;
                assert(products[k] == (e.identify)(s, rule, set, order[k] as int));
                assert(has_child_named(mid.graph, node, products[k].0));
            } else {
                assert(behind(v, other, r, t));
                assert(has_child_named(
                    v.graph,
                    other,
                    piece(e, structure_at(v.graph, other), r, t, place),
                ));
            }
        }
        lemma_take_set_faithful(e, mid, node, rule, sets, set + 1);
    }
}

/// The graph of a finished decomposition that was faithful to the engine is
/// closed: the children of every fragment are the pieces that the engine
/// cleaves it into, all of them and no others. With every fragment but the
/// root descending from the root, the graph holds what the engine derives
/// from the molecule, in whatever order the fragments were worked on.
pub proof fn lemma_finished_graph_is_closed<S>(
    e: Engine<S>,
    v: RunView<S>,
    node: usize,
    identity: Seq<char>,
)
    requires
        run_inv(v),
        faithful(e, v),
        v.stage is Finished,
        node < v.graph.len(),
    ensures
        has_child_named(v.graph, node, identity) <==> cleaves_into(
            e,
            v.min_fragment_size,
            v.allowed,
            structure_at(v.graph, node),
            identity,
        ),
{
    if has_child_named(v.graph, node, identity) {
        let c = choose|c: usize|
            c < v.graph.len() && (#[trigger] v.graph[c as int]).identity == identity && child_of(
                v.graph,
                node,
                c,
            );
        assert(child_of(v.graph, node, c));
    }
    if cleaves_into(e, v.min_fragment_size, v.allowed, structure_at(v.graph, node), identity) {
        let (rule, set, place) = choose|rule: usize, set: int, place: int|
            #[trigger] is_cleavage(
                e,
                v.min_fragment_size,
                v.allowed,
                structure_at(v.graph, node),
                rule,
                set,
                place,
            ) && piece(e, structure_at(v.graph, node), rule, set, place) == identity;
        assert(behind(v, node, rule, set));
    }
}

/// Whether the engine is canonical under the given naming of structures:
/// it names every product as the naming does, and what it gives for a
/// structure depends on the name of the structure alone.
pub open spec fn canonical<S>(e: Engine<S>, name: spec_fn(S) -> Seq<char>) -> bool {
    &&& forall|s: S, rule: usize, set: int, place: int|
        name((#[trigger] (e.identify)(s, rule, set, place)).1) == (e.identify)(
            s,
            rule,
            set,
            place,
        ).0
    &&& forall|s: S, t: S, rule: usize|
        name(s) == name(t) ==> #[trigger] (e.products)(s, rule) == #[trigger] (e.products)(t, rule)
    &&& forall|s: S, t: S, rule: usize, set: int, place: int|
        name(s) == name(t) ==> #[trigger] piece(e, s, rule, set, place) == #[trigger] piece(
            e,
            t,
            rule,
            set,
            place,
        )
}

/// Whether the identity of every fragment is the name of its structure.
pub open spec fn named<S>(name: spec_fn(S) -> Seq<char>, g: Seq<NodeView<S>>) -> bool {
    forall|i: int| 0 <= i < g.len() ==> name(structure_at(g, i as usize)) == (#[trigger] g[i]).identity
}

/// A canonical engine cleaves two structures of one name into the same
/// pieces.
proof fn lemma_same_name_same_pieces<S>(
    e: Engine<S>,
    name: spec_fn(S) -> Seq<char>,
    min_fragment_size: usize,
    allowed: Option<Set<usize>>,
    s: S,
    t: S,
    identity: Seq<char>,
)
    requires
        canonical(e, name),
        name(s) == name(t),
        cleaves_into(e, min_fragment_size, allowed, s, identity),
    ensures
        cleaves_into(e, min_fragment_size, allowed, t, identity),
{
    let (rule, set, place) = choose|rule: usize, set: int, place: int|
        #[trigger] is_cleavage(e, min_fragment_size, allowed, s, rule, set, place) && piece(
            e,
            s,
            rule,
            set,
            place,
        ) == identity;
    assert((e.products)(s, rule) == (e.products)(t, rule));
    assert forall|other: int| 0 <= other < (e.products)(t, rule)[set].len() implies passes(
        min_fragment_size as nat,
        (e.products)(t, rule)[set][other] as nat,
        #[trigger] piece(e, t, rule, set, other),
    ) by {
        assert(piece(e, s, rule, set, other) == piece(e, t, rule, set, other));
    }
    assert(piece(e, s, rule, set, place) == piece(e, t, rule, set, place));
    assert(is_cleavage(e, min_fragment_size, allowed, t, rule, set, place));
}

/// A decomposition of a molecule whose identity is the name of its
/// structure starts with a graph whose fragments are named.
pub proof fn lemma_started_named<S>(
    name: spec_fn(S) -> Seq<char>,
    identity: Seq<char>,
    structure: S,
    min_fragment_size: usize,
    allowed: Option<Set<usize>>,
)
    requires
        name(structure) == identity,
    ensures
        named(name, started(identity, structure, min_fragment_size, allowed).graph),
        started(identity, structure, min_fragment_size, allowed).graph[0].identity == identity,
{
}

/// The answer of a canonical engine to an `Identify` request keeps the
/// fragments named and the root what it was.
pub proof fn lemma_identity_keeps_named<S>(
    e: Engine<S>,
    name: spec_fn(S) -> Seq<char>,
    v: RunView<S>,
)
    requires
        canonical(e, name),
        run_inv(v),
        faithful(e, v),
        named(name, v.graph),
        v.stage is Examining,
        v.graph.len() + v.stage->Examining_accepted.len() < usize::MAX,
    ensures
        named(name, after_identity(v, identity_answer(e, v).0, identity_answer(e, v).1).graph),
        after_identity(v, identity_answer(e, v).0, identity_answer(e, v).1).graph[0].identity
            == v.graph[0].identity,
{
    let node = v.stage->Examining_node;
    let rule = v.stage->Examining_rule;
    let sets = v.stage->Examining_sets;
    let set = v.stage->Examining_set;
    let pos = v.stage->Examining_pos;
    let s = structure_at(v.graph, node);
    let answer = identity_answer(e, v);
    let products = v.stage->Examining_accepted.push(answer);
    let places = Seq::new(products.len(), |k: int| awaited_product(sets, set, k) as int);
    assert forall|k: int| 0 <= k < products.len() implies (#[trigger] products[k]) == (e.identify)(
        s,
        rule,
        set,
        places[k],
    ) by {
        if k < pos {
            assert(products[k] == v.stage->Examining_accepted[k]);
        }
    }
    lemma_absorb_named(e, name, v, node, rule, set, places, products);
}

/// Recording products that a canonical engine gave keeps the fragments
/// named and the root what it was.
proof fn lemma_absorb_named<S>(
    e: Engine<S>,
    name: spec_fn(S) -> Seq<char>,
    v: RunView<S>,
    source: usize,
    rule: usize,
    set: int,
    places: Seq<int>,
    products: Seq<(Seq<char>, S)>,
)
    requires
        canonical(e, name),
        base_inv(v),
        named(name, v.graph),
        source < v.graph.len(),
        v.graph.len() + products.len() <= usize::MAX,
        places.len() == products.len(),
        forall|k: int|
            0 <= k < products.len() ==> (#[trigger] products[k]) == (e.identify)(
                structure_at(v.graph, source),
                rule,
                set,
                places[k],
            ),
    ensures
        named(name, absorb(v, source, products).graph),
        absorb(v, source, products).graph[0].identity == v.graph[0].identity,
    decreases products.len(),
{
    if products.len() > 0 {
        let shorter = products.drop_last();
        let u = absorb(v, source, shorter);
        let w = absorb(v, source, products);
        let last = products.last();
        assert forall|k: int| 0 <= k < shorter.len() implies (#[trigger] shorter[k])
            == (e.identify)(structure_at(v.graph, source), rule, set, places.drop_last()[k]) by {
            assert(shorter[k] == products[k]);
        }
        lemma_absorb_named(e, name, v, source, rule, set, places.drop_last(), shorter);
        lemma_absorb(v, source, shorter);
        lemma_absorb_one(u, source, last.0, last.1);
        lemma_adopted(u.graph, source, last.0, last.1);
        assert(last == (e.identify)(
            structure_at(v.graph, source),
            rule,
            set,
            places[products.len() - 1],
        ));
        assert forall|i: int| 0 <= i < w.graph.len() implies name(structure_at(w.graph, i as usize))
            == (#[trigger] w.graph[i]).identity by {
            if i < u.graph.len() {
                assert(u.graph[i].identity == w.graph[i].identity);
            }
        }
    }
}

/// Every fragment of one finished decomposition is a fragment of any other
/// that started from the same molecule with the same filter and rules and
/// was faithful to the same canonical engine.
proof fn lemma_found_in_other<S>(
    e: Engine<S>,
    name: spec_fn(S) -> Seq<char>,
    first: RunView<S>,
    second: RunView<S>,
    place: usize,
)
    requires
        canonical(e, name),
        run_inv(first),
        run_inv(second),
        faithful(e, first),
        faithful(e, second),
        named(name, first.graph),
        named(name, second.graph),
        second.stage is Finished,
        first.min_fragment_size == second.min_fragment_size,
        first.allowed == second.allowed,
        first.graph[0].identity == second.graph[0].identity,
        place < first.graph.len(),
    ensures
        position(second.graph, first.graph[place as int].identity) is Some,
    decreases place,
{
    let g = first.graph;
    let h = second.graph;
    if place == 0 {
        lemma_position_unique(h, g[0].identity, 0);
    } else {
        let parent = g[place as int].parents[0];
        assert(is_adjacency(g, g[place as int].parents));
        assert(parent_of(g, place, parent));
        assert(child_of(g, parent, place));
        lemma_found_in_other(e, name, first, second, parent);
        let twin = position(h, g[parent as int].identity)->0;
        assert(h[twin as int].identity == g[parent as int].identity);
        lemma_same_name_same_pieces(
            e,
            name,
            first.min_fragment_size,
            first.allowed,
            structure_at(g, parent),
            structure_at(h, twin),
            g[place as int].identity,
        );
        lemma_finished_graph_is_closed(e, second, twin, g[place as int].identity);
        let c = choose|c: usize|
            c < h.len() && (#[trigger] h[c as int]).identity == g[place as int].identity
                && child_of(h, twin, c);
        lemma_position_unique(h, g[place as int].identity, c);
    }
}

/// Two finished decompositions of one molecule, with the same filter and the
/// same rules allowed, both faithful to one canonical engine, hold fragments
/// of the same identities, in whatever order each of them worked on its
/// fragments.
pub proof fn lemma_finished_graphs_agree<S>(
    e: Engine<S>,
    name: spec_fn(S) -> Seq<char>,
    first: RunView<S>,
    second: RunView<S>,
    identity: Seq<char>,
)
    requires
        canonical(e, name),
        run_inv(first),
        run_inv(second),
        faithful(e, first),
        faithful(e, second),
        named(name, first.graph),
        named(name, second.graph),
        first.stage is Finished,
        second.stage is Finished,
        first.min_fragment_size == second.min_fragment_size,
        first.allowed == second.allowed,
        first.graph[0].identity == second.graph[0].identity,
    ensures
        position(first.graph, identity) is Some <==> position(second.graph, identity) is Some,
{
    if position(first.graph, identity) is Some {
        lemma_found_in_other(e, name, first, second, position(first.graph, identity)->0);
    }
    if position(second.graph, identity) is Some {
        lemma_found_in_other(e, name, second, first, position(second.graph, identity)->0);
    }
}

/// Whether the graph has a leaf with the given identity.
pub open spec fn is_leaf_named<S>(g: Seq<NodeView<S>>, identity: Seq<char>) -> bool {
    exists|place: usize| #[trigger] is_leaf(g, place) && g[place as int].identity == identity
}

/// A leaf of one finished decomposition is a leaf of any other that started
/// from the same molecule with the same filter and rules and was faithful to
/// the same canonical engine.
proof fn lemma_leaf_in_other<S>(
    e: Engine<S>,
    name: spec_fn(S) -> Seq<char>,
    first: RunView<S>,
    second: RunView<S>,
    identity: Seq<char>,
)
    requires
        canonical(e, name),
        run_inv(first),
        run_inv(second),
        faithful(e, first),
        faithful(e, second),
        named(name, first.graph),
        named(name, second.graph),
        first.stage is Finished,
        second.stage is Finished,
        first.min_fragment_size == second.min_fragment_size,
        first.allowed == second.allowed,
        first.graph[0].identity == second.graph[0].identity,
        is_leaf_named(first.graph, identity),
    ensures
        is_leaf_named(second.graph, identity),
{
    let g = first.graph;
    let h = second.graph;
    let place = choose|place: usize| #[trigger] is_leaf(g, place) && g[place as int].identity == identity;
    lemma_leaves_are_terminals(g, place);
    lemma_found_in_other(e, name, first, second, place);
    let twin = position(h, identity)->0;
    assert(h[twin as int].identity == identity);
    if twin == 0 {
        assert(g[0].identity != g[place as int].identity);
    }
    if h[twin as int].children.len() > 0 {
        let c = h[twin as int].children[0];
        assert(is_adjacency(h, h[twin as int].children));
        assert(child_of(h, twin, c));
        assert(has_child_named(h, twin, h[c as int].identity));
        lemma_finished_graph_is_closed(e, second, twin, h[c as int].identity);
        lemma_same_name_same_pieces(
            e,
            name,
            first.min_fragment_size,
            first.allowed,
            structure_at(h, twin),
            structure_at(g, place),
            h[c as int].identity,
        );
        lemma_finished_graph_is_closed(e, first, place, h[c as int].identity);
        let d = choose|d: usize|
            d < g.len() && (#[trigger] g[d as int]).identity == h[c as int].identity && child_of(
                g,
                place,
                d,
            );
        assert(g[place as int].children.contains(d));
    }
    lemma_leaves_are_terminals(h, twin);
    assert(is_leaf(h, twin));
}

/// Two finished decompositions of one molecule, with the same filter and the
/// same rules allowed, both faithful to one canonical engine, have leaves of
/// the same identities.
pub proof fn lemma_finished_leaves_agree<S>(
    e: Engine<S>,
    name: spec_fn(S) -> Seq<char>,
    first: RunView<S>,
    second: RunView<S>,
    identity: Seq<char>,
)
    requires
        canonical(e, name),
        run_inv(first),
        run_inv(second),
        faithful(e, first),
        faithful(e, second),
        named(name, first.graph),
        named(name, second.graph),
        first.stage is Finished,
        second.stage is Finished,
        first.min_fragment_size == second.min_fragment_size,
        first.allowed == second.allowed,
        first.graph[0].identity == second.graph[0].identity,
    ensures
        is_leaf_named(first.graph, identity) <==> is_leaf_named(second.graph, identity),
{
    if is_leaf_named(first.graph, identity) {
        lemma_leaf_in_other(e, name, first, second, identity);
    }
    if is_leaf_named(second.graph, identity) {
        lemma_leaf_in_other(e, name, second, first, identity);
    }
}

} // verus!
