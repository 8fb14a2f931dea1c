//! The state of a decomposition between two calls into the chemistry engine,
//! as plain mathematical values, and the rules by which it moves on.
//!
//! A decomposition pauses whenever it needs the engine: to apply a rule to a
//! fragment, or to sanitize one product of a cleavage and name it. Everything
//! between two pauses is decided here.

use super::filter::passes;
use super::graph::{adopted, fresh_node, position, well_formed, NodeView};
use super::order::size_order;
use super::rules::{next_rule, rule_allowed, RULE_COUNT};
use vstd::prelude::*;

verus! {

/// What a paused decomposition is waiting for.
pub enum Stage<S> {
    /// The products of applying rule `rule` to the fragment at `node`.
    Applying { node: usize, rule: usize },
    /// The identity of one product of a cleavage. `sets` holds the atom
    /// counts of the product sets that the rule gave; the products of set
    /// `set` are examined in size order, the one at position `pos` of that
    /// order is next, and `accepted` holds those before it, which all passed
    /// the filter.
    Examining {
        node: usize,
        rule: usize,
        sets: Seq<Seq<usize>>,
        set: int,
        pos: int,
        accepted: Seq<(Seq<char>, S)>,
    },
    /// Nothing: the worklist is empty.
    Finished,
}

/// A decomposition at a pause.
pub struct RunView<S> {
    /// Every fragment met so far, and the cleavages recorded between them.
    pub graph: Seq<NodeView<S>>,
    /// The worklist: places of fragments that no rule was applied to yet.
    /// The last one is taken first.
    pub pool: Seq<usize>,
    /// The identities of the pieces that ever joined the worklist.
    pub seen: Set<Seq<char>>,
    /// The size threshold of the fragment filter; 0 selects the denylist.
    pub min_fragment_size: usize,
    /// The rules that may fire, where a selection was made.
    pub allowed: Option<Set<usize>>,
    /// What the decomposition is waiting for.
    pub stage: Stage<S>,
}

/// The worklist without the fragments at its end that have no structure
/// behind them: those are passed over.
pub open spec fn next_node<S>(g: Seq<NodeView<S>>, pool: Seq<usize>) -> Seq<usize>
    decreases pool.len(),
{
    if pool.len() == 0 {
        pool
    } else if g[pool.last() as int].structure is Some {
        pool
    } else {
        next_node(g, pool.drop_last())
    }
}

/// The first product set at or after `from` that is not empty, or the number
/// of sets where there is none.
pub open spec fn next_set(sets: Seq<Seq<usize>>, from: int) -> int
    decreases sets.len() - from,
{
    if from >= sets.len() {
        sets.len() as int
    } else if 0 <= from && sets[from].len() > 0 {
        from
    } else {
        next_set(sets, from + 1)
    }
}

/// The next pause once a fragment is done with: the first allowed rule is
/// applied to the next fragment of the worklist that has a structure. Where
/// no rule is allowed or no such fragment is left, the worklist is drained
/// and the decomposition is finished.
pub open spec fn take_node<S>(v: RunView<S>) -> RunView<S> {
    let rule = next_rule(v.allowed, 0);
    let pool = next_node(v.graph, v.pool);
    if rule >= RULE_COUNT || pool.len() == 0 {
        RunView { pool: Seq::empty(), stage: Stage::Finished, ..v }
    } else {
        RunView { pool: pool.drop_last(), stage: Stage::Applying { node: pool.last(), rule }, ..v }
    }
}

/// The next pause once the rules before `from` are done with for the
/// fragment at `node`: the next allowed rule is applied to it, or, where
/// there is none, the fragment is done with.
pub open spec fn take_rule<S>(v: RunView<S>, node: usize, from: usize) -> RunView<S> {
    let rule = next_rule(v.allowed, from);
    if rule < RULE_COUNT {
        RunView { stage: Stage::Applying { node, rule }, ..v }
    } else {
        take_node(v)
    }
}

/// The next pause once the product sets before `from` are done with: the
/// smallest product of the next set that is not empty is examined, or, where
/// there is none, the rule is done with.
pub open spec fn take_set<S>(
    v: RunView<S>,
    node: usize,
    rule: usize,
    sets: Seq<Seq<usize>>,
    from: int,
) -> RunView<S> {
    let set = next_set(sets, from);
    if set < sets.len() {
        RunView {
            stage: Stage::Examining { node, rule, sets, set, pos: 0, accepted: Seq::empty() },
            ..v
        }
    } else {
        take_rule(v, node, (rule + 1) as usize)
    }
}

/// The decomposition after one accepted product was recorded as a piece of
/// the fragment at `source`. A fragment the graph knows gains an edge and
/// nothing else happens. An unknown one joins the graph, and, unless its
/// identity was seen before, is marked as seen and joins the worklist.
pub open spec fn absorb_one<S>(
    v: RunView<S>,
    source: usize,
    identity: Seq<char>,
    structure: S,
) -> RunView<S> {
    let graph = adopted(v.graph, source, identity, structure);
    if position(v.graph, identity) is Some || v.seen.contains(identity) {
        RunView { graph, ..v }
    } else {
        RunView {
            graph,
            seen: v.seen.insert(identity),
            pool: v.pool.push(v.graph.len() as usize),
            ..v
        }
    }
}

/// The decomposition after the products of an accepted cleavage were
/// recorded, one after the other, as pieces of the fragment at `source`.
pub open spec fn absorb<S>(
    v: RunView<S>,
    source: usize,
    products: Seq<(Seq<char>, S)>,
) -> RunView<S>
    decreases products.len(),
{
    if products.len() == 0 {
        v
    } else {
        let last = products.last();
        absorb_one(absorb(v, source, products.drop_last()), source, last.0, last.1)
    }
}

/// A decomposition at its first pause: the molecule is the root of the
/// graph and the only entry of the worklist, and is taken from it at once.
pub open spec fn started<S>(
    identity: Seq<char>,
    structure: S,
    min_fragment_size: usize,
    allowed: Option<Set<usize>>,
) -> RunView<S> {
    take_node(
        RunView {
            graph: seq![fresh_node(identity, structure)],
            pool: seq![0usize],
            seen: Set::empty(),
            min_fragment_size,
            allowed,
            stage: Stage::Finished,
        },
    )
}

/// The decomposition after the engine answered with the product sets of the
/// rule it was asked to apply, each product given by its atom count.
pub open spec fn after_products<S>(v: RunView<S>, sets: Seq<Seq<usize>>) -> RunView<S> {
    match v.stage {
        Stage::Applying { node, rule } => take_set(v, node, rule, sets, 0),
        _ => v,
    }
}

/// The product whose identity a decomposition that examines a product set is waiting for.
pub open spec fn awaited_product(sets: Seq<Seq<usize>>, set: int, pos: int) -> usize {
    size_order(sets[set])[pos]
}

/// The decomposition after the engine answered with the identity and the
/// sanitized structure of the product it was asked for.
///
/// A product that fails the filter ends the examination of its set: the set is
/// given up as a whole and the graph stays as it was. A product that passes
/// is kept aside; when it was the last of its set, all products of the set
/// are recorded in the graph, in the order in which they were examined.
pub open spec fn after_identity<S>(v: RunView<S>, identity: Seq<char>, structure: S) -> RunView<
    S,
> {
    match v.stage {
        Stage::Examining { node, rule, sets, set, pos, accepted } => {
            let product = awaited_product(sets, set, pos);
            let atom_count = sets[set][product as int];
            if !passes(v.min_fragment_size as nat, atom_count as nat, identity) {
                take_set(v, node, rule, sets, set + 1)
            } else if pos + 1 < sets[set].len() {
                RunView {
                    stage: Stage::Examining {
                        node,
                        rule,
                        sets,
                        set,
                        pos: pos + 1,
                        accepted: accepted.push((identity, structure)),
                    },
                    ..v
                }
            } else {
                take_set(
                    absorb(v, node, accepted.push((identity, structure))),
                    node,
                    rule,
                    sets,
                    set + 1,
                )
            }
        },
        _ => v,
    }
}

/// What holds of a decomposition whatever it is waiting for: the graph is
/// well formed, the worklist names fragments of the graph, none of them
/// twice, and every identity that was seen is that of a fragment of the
/// graph.
pub open spec fn base_inv<S>(v: RunView<S>) -> bool {
    &&& well_formed(v.graph)
    &&& v.pool.no_duplicates()
    &&& forall|k: int| 0 <= k < v.pool.len() ==> (#[trigger] v.pool[k]) < v.graph.len()
    &&& forall|identity: Seq<char>| #[trigger]
        v.seen.contains(identity) ==> position(v.graph, identity) is Some
}

/// Whether the product sets, and the products of each, can be counted by a
/// machine integer.
pub open spec fn countable(sets: Seq<Seq<usize>>) -> bool {
    &&& sets.len() <= usize::MAX
    &&& forall|i: int| 0 <= i < sets.len() ==> (#[trigger] sets[i]).len() <= usize::MAX
}

/// Whether a fragment is being worked on rightly: it is in the graph, has a
/// structure, has left the worklist, and the rule in hand is one that may
/// fire.
pub open spec fn busy_with<S>(v: RunView<S>, node: usize, rule: usize) -> bool {
    &&& node < v.graph.len()
    &&& v.graph[node as int].structure is Some
    &&& !v.pool.contains(node)
    &&& rule < RULE_COUNT
    &&& rule_allowed(v.allowed, rule)
}

/// What holds of a decomposition on account of what it is waiting for.
pub open spec fn stage_inv<S>(v: RunView<S>) -> bool {
    match v.stage {
        Stage::Applying { node, rule } => busy_with(v, node, rule),
        Stage::Examining { node, rule, sets, set, pos, accepted } => {
            &&& busy_with(v, node, rule)
            &&& countable(sets)
            &&& 0 <= set < sets.len()
            &&& 0 <= pos < sets[set].len()
            &&& accepted.len() == pos
            &&& forall|k: int|
                0 <= k < pos ==> passes(
                    v.min_fragment_size as nat,
                    sets[set][awaited_product(sets, set, k) as int] as nat,
                    (#[trigger] accepted[k]).0,
                )
        },
        Stage::Finished => v.pool.len() == 0,
    }
}

/// The invariant of a decomposition.
pub open spec fn run_inv<S>(v: RunView<S>) -> bool {
    base_inv(v) && stage_inv(v)
}

/// What `next_rule` finds: an allowed rule, with none allowed before it, or
/// the end of the table.
pub proof fn lemma_next_rule(allowed: Option<Set<usize>>, from: usize)
    ensures
        from <= RULE_COUNT ==> from <= next_rule(allowed, from) <= RULE_COUNT,
        next_rule(allowed, from) < RULE_COUNT ==> rule_allowed(allowed, next_rule(allowed, from)),
        forall|rule: usize| from <= rule < next_rule(allowed, from) ==> !rule_allowed(allowed, rule),
    decreases RULE_COUNT - from,
{
    if from < RULE_COUNT && !rule_allowed(allowed, from) {
        lemma_next_rule(allowed, (from + 1) as usize);
    }
}

/// What `next_set` finds: a set with products, with only empty sets before
/// it, or the end of the sets.
pub proof fn lemma_next_set(sets: Seq<Seq<usize>>, from: int)
    requires
        0 <= from,
    ensures
        from <= sets.len() ==> from <= next_set(sets, from) <= sets.len(),
        next_set(sets, from) < sets.len() ==> sets[next_set(sets, from)].len() > 0,
        forall|set: int| from <= set < next_set(sets, from) ==> (#[trigger] sets[set]).len() == 0,
    decreases sets.len() - from,
{
    if from < sets.len() && sets[from].len() == 0 {
        lemma_next_set(sets, from + 1);
    }
}

/// What `next_node` leaves: a front part of the worklist, ending, unless it
/// is empty, in a fragment that has a structure; the fragments passed over
/// had none.
pub proof fn lemma_next_node<S>(g: Seq<NodeView<S>>, pool: Seq<usize>)
    ensures
        next_node(g, pool).len() <= pool.len(),
        next_node(g, pool) == pool.take(next_node(g, pool).len() as int),
        next_node(g, pool).len() > 0 ==> g[next_node(g, pool).last() as int].structure is Some,
        forall|k: int|
            next_node(g, pool).len() <= k < pool.len() ==> g[(#[trigger] pool[k]) as int].structure
                is None,
    decreases pool.len(),
{
    if pool.len() == 0 {
        assert(pool.take(0) =~= pool);
    } else if g[pool.last() as int].structure is Some {
        assert(pool.take(pool.len() as int) =~= pool);
    } else {
        lemma_next_node(g, pool.drop_last());
        let rest = next_node(g, pool.drop_last());
        assert(pool.drop_last().take(rest.len() as int) =~= pool.take(rest.len() as int));
        assert forall|k: int| rest.len() <= k < pool.len() implies g[(#[trigger] pool[k]) as int].structure
            is None by {
            if k < pool.len() - 1 {
                assert(pool[k] == pool.drop_last()[k]);
            }
        }
    }
}

/// Taking the next fragment from the worklist keeps the invariant, and the
/// graph and the identities seen as they are.
pub proof fn lemma_take_node_inv<S>(v: RunView<S>)
    requires
        base_inv(v),
    ensures
        run_inv(take_node(v)),
        take_node(v).graph == v.graph,
        take_node(v).seen == v.seen,
{
    lemma_next_rule(v.allowed, 0);
    lemma_next_node(v.graph, v.pool);
    let pool = next_node(v.graph, v.pool);
    if next_rule(v.allowed, 0) < RULE_COUNT && pool.len() > 0 {
        let rest = pool.drop_last();
        assert(rest =~= v.pool.take(pool.len() - 1));
        assert(pool.last() == v.pool[pool.len() - 1]);
        assert forall|k: int| 0 <= k < rest.len() implies (#[trigger] rest[k]) < v.graph.len() by {
            assert(rest[k] == v.pool[k]);
        }
        if rest.contains(pool.last()) {
            let k = choose|k: int| 0 <= k < rest.len() && rest[k] == pool.last();
            assert(v.pool[k] == v.pool[pool.len() - 1]);
        }
    }
}

/// Moving on to the next rule keeps the invariant, and the graph and the
/// identities seen as they are.
pub proof fn lemma_take_rule_inv<S>(v: RunView<S>, node: usize, from: usize)
    requires
        base_inv(v),
        node < v.graph.len(),
        v.graph[node as int].structure is Some,
        !v.pool.contains(node),
    ensures
        run_inv(take_rule(v, node, from)),
        take_rule(v, node, from).graph == v.graph,
        take_rule(v, node, from).seen == v.seen,
{
    lemma_next_rule(v.allowed, from);
    lemma_take_node_inv(v);
}

/// Moving on to the next product set keeps the invariant, and the graph and
/// the identities seen as they are.
pub proof fn lemma_take_set_inv<S>(
    v: RunView<S>,
    node: usize,
    rule: usize,
    sets: Seq<Seq<usize>>,
    from: int,
)
    requires
        base_inv(v),
        busy_with(v, node, rule),
        countable(sets),
        0 <= from,
    ensures
        run_inv(take_set(v, node, rule, sets, from)),
        take_set(v, node, rule, sets, from).graph == v.graph,
        take_set(v, node, rule, sets, from).seen == v.seen,
{
    lemma_next_set(sets, from);
    lemma_take_rule_inv(v, node, (rule + 1) as usize);
}

} // verus!
