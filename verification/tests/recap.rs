//! Decompositions driven by a chemistry engine that knows its answers by
//! heart: every structure is a string, and the engine is a table from a
//! structure and a rule to the product sets of that rule.

use rdkit_rs::fragment::filter::accepts;
use rdkit_rs::fragment::rules::RULE_COUNT;
use rdkit_rs::fragment::{recap_decompose, RecapResult, Request};
use std::collections::{HashMap, HashSet};

const UREA: usize = 0;
const AMIDE: usize = 1;
const ESTER: usize = 2;
const AMINE: usize = 3;
const ETHER: usize = 5;
const OLEFIN: usize = 6;

/// One product of a rule: its atom count and its identity once sanitized.
type Product = (usize, &'static str);

struct Engine {
    table: HashMap<(String, usize), Vec<Vec<Product>>>,
}

impl Engine {
    fn new() -> Self {
        Engine { table: HashMap::new() }
    }

    fn rule(mut self, structure: &str, rule: usize, sets: Vec<Vec<Product>>) -> Self {
        self.table.insert((structure.to_string(), rule), sets);
        self
    }

    fn apply(&self, structure: &str, rule: usize) -> Vec<Vec<Product>> {
        match self.table.get(&(structure.to_string(), rule)) {
            Some(sets) => sets.clone(),
            None => Vec::new(),
        }
    }
}

/// Runs a decomposition to its end and returns the result with every request
/// that was made on the way.
fn decompose(
    engine: &Engine,
    root: &str,
    min_fragment_size: Option<usize>,
    only_use_reactions: Option<HashSet<usize>>,
) -> (RecapResult<String>, Vec<Request>) {
    let mut run = recap_decompose(
        root.to_string(),
        root.to_string(),
        min_fragment_size,
        only_use_reactions,
    );
    let mut sets: Vec<Vec<Product>> = Vec::new();
    let mut requests = Vec::new();
    loop {
        let request = run.request();
        requests.push(request);
        match request {
            Request::Apply { node, rule } => {
                let structure = run.graph().node(node).structure().unwrap().clone();
                sets = engine.apply(&structure, rule);
                let counts = sets.iter().map(|set| set.iter().map(|p| p.0).collect()).collect();
                run.supply_products(counts);
            }
            Request::Identify { set, product } => {
                let identity = sets[set][product].1;
                run.supply_identity(identity.to_string(), identity.to_string());
            }
            Request::Done => break,
        }
        assert!(requests.len() < 10_000);
    }
    (run.finish(), requests)
}

fn leaves(result: &RecapResult<String>) -> Vec<String> {
    let mut names: Vec<String> = result
        .get_leaves()
        .iter()
        .map(|&place| result.graph().node(place).identity().clone())
        .collect();
    names.sort();
    names
}

fn identities(result: &RecapResult<String>) -> Vec<String> {
    (0..result.graph().len()).map(|i| result.graph().node(i).identity().clone()).collect()
}

fn only(rules: &[usize]) -> Option<HashSet<usize>> {
    Some(rules.iter().copied().collect())
}

const DIESTER: &str = "[H]/C(=N/C([H])([H])C(=O)OC([H])([H])C([H])([H])[H])\
C(SSC(/C([H])=N/C([H])([H])C(=O)OC([H])([H])C([H])([H])[H])(C([H])([H])C([H])\
([H])[H])C([H])([H])C([H])([H])[H])(C([H])([H])C([H])([H])[H])C([H])([H])C([H])\
([H])[H]";
const MONOESTER: &str = "*C(=O)C/N=C\\C(CC)(CC)SSC(/C=N/CC(=O)OCC)(CC)CC";
const DIACYL: &str = "*C(=O)C/N=C\\C(CC)(CC)SSC(/C=N/CC(*)=O)(CC)CC";

/// The two ester groups of the molecule are cleaved one after the other; no
/// other rule matches.
fn diester_engine() -> Engine {
    Engine::new()
        .rule(
            DIESTER,
            ESTER,
            vec![vec![(26, MONOESTER), (4, "*OCC")], vec![(26, MONOESTER), (4, "*OCC")]],
        )
        .rule(MONOESTER, ESTER, vec![vec![(24, DIACYL), (4, "*OCC")]])
}

#[test]
fn test_recap() {
    let (fragments, _) = decompose(&diester_engine(), DIESTER, None, None);
    let got = leaves(&fragments);
    let want = ["*OCC", r#"*C(=O)C/N=C\C(CC)(CC)SSC(/C=N/CC(*)=O)(CC)CC"#];
    assert_eq!(got.len(), want.len());
    for w in want {
        assert!(got.contains(&w.to_string()));
    }
}

#[test]
fn diester_graph_shape() {
    let (fragments, _) = decompose(&diester_engine(), DIESTER, None, None);
    let graph = fragments.graph();
    // the smaller product of a set is recorded first
    assert_eq!(identities(&fragments), vec![DIESTER, "*OCC", MONOESTER, DIACYL]);
    assert_eq!(graph.node(0).children(), &vec![1, 2]);
    assert_eq!(graph.node(0).parents(), &Vec::<usize>::new());
    assert_eq!(graph.node(1).children(), &Vec::<usize>::new());
    assert_eq!(graph.node(1).parents(), &vec![0, 2]);
    assert_eq!(graph.node(2).children(), &vec![1, 3]);
    assert_eq!(graph.node(2).parents(), &vec![0]);
    assert_eq!(graph.node(3).children(), &Vec::<usize>::new());
    assert_eq!(graph.node(3).parents(), &vec![2]);
    assert_eq!(fragments.get_leaves(), vec![1, 3]);
    assert_eq!(graph.find("*OCC"), Some(1));
    assert_eq!(graph.find("CCO"), None);
}

#[test]
fn requests_follow_the_rule_table() {
    let engine = Engine::new();
    let (fragments, requests) = decompose(&engine, "CCO", None, None);
    let mut want: Vec<Request> =
        (0..RULE_COUNT).map(|rule| Request::Apply { node: 0, rule }).collect();
    want.push(Request::Done);
    assert_eq!(requests, want);
    assert_eq!(fragments.graph().len(), 1);
    assert!(fragments.get_leaves().is_empty());
}

#[test]
fn only_selected_rules_are_applied() {
    let engine = diester_engine();
    let (fragments, requests) = decompose(&engine, DIESTER, None, only(&[AMIDE, ETHER]));
    assert_eq!(
        requests,
        vec![
            Request::Apply { node: 0, rule: AMIDE },
            Request::Apply { node: 0, rule: ETHER },
            Request::Done
        ]
    );
    assert_eq!(fragments.graph().len(), 1);
}

#[test]
fn no_rule_selected_finishes_at_once() {
    let (fragments, requests) = decompose(&diester_engine(), DIESTER, None, only(&[]));
    assert_eq!(requests, vec![Request::Done]);
    assert_eq!(fragments.graph().len(), 1);
    let (_, requests) = decompose(&diester_engine(), DIESTER, None, only(&[RULE_COUNT, 40]));
    assert_eq!(requests, vec![Request::Done]);
}

#[test]
fn products_are_examined_smallest_first() {
    let engine = Engine::new().rule(
        "root",
        UREA,
        vec![vec![(9, "*CCCCCCCC"), (5, "*NCCC"), (9, "*OCCCCCCC"), (5, "*NCCO")]],
    );
    let (fragments, requests) = decompose(&engine, "root", None, only(&[UREA]));
    assert_eq!(
        requests[..5],
        [
            Request::Apply { node: 0, rule: UREA },
            Request::Identify { set: 0, product: 1 },
            Request::Identify { set: 0, product: 3 },
            Request::Identify { set: 0, product: 0 },
            Request::Identify { set: 0, product: 2 },
        ]
    );
    assert_eq!(
        identities(&fragments),
        vec!["root", "*NCCC", "*NCCO", "*CCCCCCCC", "*OCCCCCCC"]
    );
}

#[test]
fn a_failing_product_ends_the_examination_of_its_set() {
    // the methyl is the smallest product and fails: the larger ones are
    // never asked for
    let engine = Engine::new().rule(
        "COc1ccccc1",
        ETHER,
        vec![vec![(7, "*c1ccccc1"), (2, "*C")], vec![(2, "*C"), (7, "*c1ccccc1")]],
    );
    let (fragments, requests) = decompose(&engine, "COc1ccccc1", None, only(&[ETHER]));
    assert_eq!(
        requests,
        vec![
            Request::Apply { node: 0, rule: ETHER },
            Request::Identify { set: 0, product: 1 },
            Request::Identify { set: 1, product: 0 },
            Request::Done,
        ]
    );
    assert_eq!(fragments.graph().len(), 1);
}

#[test]
fn empty_product_sets_are_passed_over() {
    let engine = Engine::new()
        .rule("root", UREA, vec![vec![], vec![(4, "*OCC"), (6, "*NCCCC")], vec![]])
        .rule("root", AMIDE, vec![vec![], vec![]]);
    let (fragments, requests) = decompose(&engine, "root", None, only(&[UREA, AMIDE]));
    assert_eq!(
        requests[..4],
        [
            Request::Apply { node: 0, rule: UREA },
            Request::Identify { set: 1, product: 0 },
            Request::Identify { set: 1, product: 1 },
            Request::Apply { node: 0, rule: AMIDE },
        ]
    );
    assert_eq!(identities(&fragments), vec!["root", "*OCC", "*NCCCC"]);
}

#[test]
fn the_worklist_is_taken_from_its_end() {
    let engine = Engine::new().rule("root", AMINE, vec![vec![(4, "*OCC"), (6, "*NCCCC")]]);
    let (_, requests) = decompose(&engine, "root", None, only(&[AMINE]));
    assert_eq!(
        requests,
        vec![
            Request::Apply { node: 0, rule: AMINE },
            Request::Identify { set: 0, product: 0 },
            Request::Identify { set: 0, product: 1 },
            Request::Apply { node: 2, rule: AMINE },
            Request::Apply { node: 1, rule: AMINE },
            Request::Done,
        ]
    );
}

/// Diethyl ether under the ether rule alone. Both matches give two ethyl
/// pieces, `*CC`, whose skeleton `CC` is one of the trivial fragments: under
/// the default filter the cleavage is given up and nothing is recorded.
#[test]
fn diethyl_ether_default_filter() {
    let engine = Engine::new().rule(
        "CCOCC",
        ETHER,
        vec![vec![(3, "*CC"), (3, "*CC")], vec![(3, "*CC"), (3, "*CC")]],
    );
    let (fragments, requests) = decompose(&engine, "CCOCC", None, only(&[ETHER]));
    assert_eq!(
        requests,
        vec![
            Request::Apply { node: 0, rule: ETHER },
            Request::Identify { set: 0, product: 0 },
            Request::Identify { set: 1, product: 0 },
            Request::Done,
        ]
    );
    assert_eq!(identities(&fragments), vec!["CCOCC"]);
    assert!(leaves(&fragments).is_empty());
}

/// Diethyl ether with a size threshold that ethyl meets: both pieces have
/// the identity `*CC`, so the graph holds one fragment for them and the
/// leaves are that one.
#[test]
fn diethyl_ether_with_threshold() {
    let engine = Engine::new().rule(
        "CCOCC",
        ETHER,
        vec![vec![(3, "*CC"), (3, "*CC")], vec![(3, "*CC"), (3, "*CC")]],
    );
    let (fragments, _) = decompose(&engine, "CCOCC", Some(2), only(&[ETHER]));
    assert_eq!(identities(&fragments), vec!["CCOCC", "*CC"]);
    assert_eq!(leaves(&fragments), vec!["*CC"]);
    assert_eq!(fragments.graph().node(0).children(), &vec![1]);
    assert_eq!(fragments.graph().node(1).parents(), &vec![0]);
    // one atom more is asked for than ethyl has
    let (fragments, _) = decompose(&engine, "CCOCC", Some(3), only(&[ETHER]));
    assert_eq!(identities(&fragments), vec!["CCOCC"]);
}

/// A split with a methyl piece is given up under the default filter: the
/// parent gets no child from it, and the other piece is not recorded.
#[test]
fn methyl_split_is_rejected() {
    let engine = Engine::new()
        .rule("CNC(=O)c1ccccc1", AMIDE, vec![vec![(8, "*C(=O)c1ccccc1"), (3, "*NC")]])
        .rule("CNC(=O)c1ccccc1", AMINE, vec![vec![(2, "*C"), (9, "*NC(=O)c1ccccc1")]]);
    let (fragments, _) = decompose(&engine, "CNC(=O)c1ccccc1", None, None);
    assert_eq!(identities(&fragments), vec!["CNC(=O)c1ccccc1", "*NC", "*C(=O)c1ccccc1"]);
    assert_eq!(fragments.graph().find("*C"), None);
    assert_eq!(fragments.graph().find("*NC(=O)c1ccccc1"), None);
    assert_eq!(fragments.graph().node(0).children(), &vec![1, 2]);
}

/// With a threshold of four atoms a cleavage is given up that the default
/// filter lets through.
#[test]
fn threshold_of_four() {
    let engine = Engine::new().rule(
        "CCOC(=O)c1ccccc1",
        ESTER,
        vec![vec![(8, "*C(=O)c1ccccc1"), (4, "*OCC")]],
    );
    let (fragments, _) = decompose(&engine, "CCOC(=O)c1ccccc1", None, only(&[ESTER]));
    assert_eq!(leaves(&fragments), vec!["*C(=O)c1ccccc1", "*OCC"]);
    let (fragments, _) = decompose(&engine, "CCOC(=O)c1ccccc1", Some(3), only(&[ESTER]));
    assert_eq!(leaves(&fragments), vec!["*C(=O)c1ccccc1", "*OCC"]);
    let (fragments, requests) = decompose(&engine, "CCOC(=O)c1ccccc1", Some(4), only(&[ESTER]));
    assert!(leaves(&fragments).is_empty());
    assert_eq!(fragments.graph().len(), 1);
    assert_eq!(
        requests,
        vec![
            Request::Apply { node: 0, rule: ESTER },
            Request::Identify { set: 0, product: 1 },
            Request::Done,
        ]
    );
}

/// The placeholders of an identity do not count as atoms: two of them take
/// two off the atom count.
#[test]
fn threshold_counts_real_atoms() {
    let engine = Engine::new().rule("root", UREA, vec![vec![(6, "*NCCN*"), (9, "*CCCCCCCC")]]);
    let (fragments, _) = decompose(&engine, "root", Some(4), only(&[UREA]));
    assert_eq!(fragments.graph().len(), 3);
    let (fragments, _) = decompose(&engine, "root", Some(5), only(&[UREA]));
    assert_eq!(fragments.graph().len(), 1);
}

/// A fragment that two different fragments cleave into is stored once and
/// has both as parents.
#[test]
fn shared_fragment_has_two_parents() {
    let engine = Engine::new()
        .rule("root", AMIDE, vec![vec![(12, "*left"), (12, "*right")]])
        .rule("*left", ETHER, vec![vec![(6, "*core*"), (7, "*Oa")]])
        .rule("*right", OLEFIN, vec![vec![(6, "*core*"), (7, "*Ob")]]);
    let (fragments, _) = decompose(&engine, "root", None, None);
    let names = identities(&fragments);
    assert_eq!(names.iter().filter(|name| name.as_str() == "*core*").count(), 1);
    let core = fragments.graph().find("*core*").unwrap();
    let left = fragments.graph().find("*left").unwrap();
    let right = fragments.graph().find("*right").unwrap();
    let mut parents = fragments.graph().node(core).parents().clone();
    parents.sort();
    let mut want = vec![left, right];
    want.sort();
    assert_eq!(parents, want);
    assert!(fragments.graph().node(left).children().contains(&core));
    assert!(fragments.graph().node(right).children().contains(&core));
    assert_eq!(leaves(&fragments), vec!["*Oa", "*Ob", "*core*"]);
}

/// The same cleavage found by two rules gives one edge, not two.
#[test]
fn the_same_edge_is_recorded_once() {
    let engine = Engine::new()
        .rule("root", AMIDE, vec![vec![(5, "*NCCO"), (6, "*OCCCC")]])
        .rule("root", AMINE, vec![vec![(6, "*OCCCC"), (5, "*NCCO")]]);
    let (fragments, _) = decompose(&engine, "root", None, None);
    assert_eq!(identities(&fragments), vec!["root", "*NCCO", "*OCCCC"]);
    assert_eq!(fragments.graph().node(0).children(), &vec![1, 2]);
    assert_eq!(fragments.graph().node(1).parents(), &vec![0]);
    assert_eq!(fragments.graph().node(2).parents(), &vec![0]);
}

/// Every identity of the graph occurs once, and every fragment that was not
/// cleaved, the root aside, is a leaf.
#[test]
fn identities_are_unique_and_leaves_complete() {
    let (fragments, _) = decompose(&diester_engine(), DIESTER, None, None);
    let names = identities(&fragments);
    let distinct: HashSet<&String> = names.iter().collect();
    assert_eq!(distinct.len(), names.len());
    let graph = fragments.graph();
    let want: Vec<usize> =
        (1..graph.len()).filter(|&i| graph.node(i).children().is_empty()).collect();
    assert_eq!(fragments.get_leaves(), want);
}

/// The same molecule and the same engine give the same graph.
#[test]
fn two_runs_agree() {
    let (first, first_requests) = decompose(&diester_engine(), DIESTER, None, None);
    let (second, second_requests) = decompose(&diester_engine(), DIESTER, None, None);
    assert_eq!(first_requests, second_requests);
    assert_eq!(identities(&first), identities(&second));
    assert_eq!(leaves(&first), leaves(&second));
}

/// A leaf of an earlier decomposition, placeholders intact, can be
/// decomposed again: nothing cleaves it, and the run ends.
#[test]
fn a_leaf_can_be_decomposed_again() {
    let engine = diester_engine();
    let (fragments, _) = decompose(&engine, DIESTER, None, None);
    for leaf in leaves(&fragments) {
        let (again, requests) = decompose(&engine, &leaf, None, None);
        assert_eq!(requests.len(), RULE_COUNT + 1);
        assert_eq!(identities(&again), vec![leaf.clone()]);
        assert!(leaves(&again).is_empty());
    }
}

/// A product with the identity of its own source gives an edge from the
/// fragment to itself, and the run still ends.
#[test]
fn a_fragment_that_yields_itself() {
    let engine = Engine::new().rule("*NCCO", AMINE, vec![vec![(5, "*NCCO"), (5, "*OCCN")]]);
    let (fragments, _) = decompose(&engine, "*NCCO", None, only(&[AMINE]));
    assert_eq!(identities(&fragments), vec!["*NCCO", "*OCCN"]);
    assert_eq!(fragments.graph().node(0).children(), &vec![0, 1]);
    assert_eq!(fragments.graph().node(0).parents(), &vec![0]);
    assert_eq!(leaves(&fragments), vec!["*OCCN"]);
}

/// A molecule with three cleavable bonds, some of whose splits give a
/// trivial piece.
fn branched_engine() -> Engine {
    Engine::new()
        .rule(
            "CCOC(=O)CNC(=O)c1ccc(OC)cc1",
            AMIDE,
            vec![vec![(12, "*C(=O)c1ccc(OC)cc1"), (8, "*NCC(=O)OCC")]],
        )
        .rule(
            "CCOC(=O)CNC(=O)c1ccc(OC)cc1",
            ESTER,
            vec![vec![(14, "*C(=O)CNC(=O)c1ccc(OC)cc1"), (4, "*OCC")]],
        )
        .rule(
            "CCOC(=O)CNC(=O)c1ccc(OC)cc1",
            ETHER,
            vec![
                vec![(2, "*C"), (16, "*Oc1ccc(C(=O)NCC(=O)OCC)cc1")],
                vec![(16, "*Oc1ccc(C(=O)NCC(=O)OCC)cc1"), (2, "*C")],
            ],
        )
        .rule("*NCC(=O)OCC", ESTER, vec![vec![(5, "*NCC(*)=O"), (4, "*OCC")]])
        .rule(
            "*C(=O)CNC(=O)c1ccc(OC)cc1",
            AMIDE,
            vec![vec![(12, "*C(=O)c1ccc(OC)cc1"), (5, "*NCC(*)=O")]],
        )
        .rule("*C(=O)c1ccc(OC)cc1", ETHER, vec![vec![(2, "*C"), (10, "*Oc1ccc(C(*)=O)cc1")]])
}

/// The fragments that the engine derives from the root, found by going
/// through them first come, first served, with every edge between them.
fn closure(
    engine: &Engine,
    root: &str,
    min_fragment_size: usize,
) -> (HashSet<String>, HashSet<(String, String)>) {
    let mut found: HashSet<String> = HashSet::new();
    let mut edges: HashSet<(String, String)> = HashSet::new();
    let mut queue = std::collections::VecDeque::new();
    found.insert(root.to_string());
    queue.push_back(root.to_string());
    while let Some(source) = queue.pop_front() {
        for rule in 0..RULE_COUNT {
            for set in engine.apply(&source, rule) {
                if set.iter().all(|p| accepts(min_fragment_size, p.0, p.1)) {
                    for product in set {
                        edges.insert((source.clone(), product.1.to_string()));
                        if found.insert(product.1.to_string()) {
                            queue.push_back(product.1.to_string());
                        }
                    }
                }
            }
        }
    }
    (found, edges)
}

fn edges(result: &RecapResult<String>) -> HashSet<(String, String)> {
    let graph = result.graph();
    let mut edges = HashSet::new();
    for parent in 0..graph.len() {
        for &child in graph.node(parent).children() {
            edges.insert((
                graph.node(parent).identity().clone(),
                graph.node(child).identity().clone(),
            ));
        }
    }
    edges
}

/// The graph of a decomposition holds the fragments and the edges that the
/// engine derives from the molecule, whichever way they are gone through.
#[test]
fn the_graph_is_what_the_engine_derives() {
    let engine = branched_engine();
    let root = "CCOC(=O)CNC(=O)c1ccc(OC)cc1";
    for min_fragment_size in [0, 1, 3, 4, 5, 11] {
        let (fragments, _) = decompose(&engine, root, Some(min_fragment_size), None);
        let (want_names, want_edges) = closure(&engine, root, min_fragment_size);
        let names: HashSet<String> = identities(&fragments).into_iter().collect();
        assert_eq!(names, want_names);
        assert_eq!(edges(&fragments), want_edges);
        assert_eq!(fragments.graph().len(), want_names.len());
    }
}

#[test]
fn branched_molecule_leaves() {
    let engine = branched_engine();
    let (fragments, _) = decompose(&engine, "CCOC(=O)CNC(=O)c1ccc(OC)cc1", None, None);
    assert_eq!(leaves(&fragments), vec!["*C(=O)c1ccc(OC)cc1", "*NCC(*)=O", "*OCC"]);
    // parents and children record the same edges
    let graph = fragments.graph();
    for parent in 0..graph.len() {
        for &child in graph.node(parent).children() {
            assert!(graph.node(child).parents().contains(&parent));
        }
        for &upper in graph.node(parent).parents() {
            assert!(graph.node(upper).children().contains(&parent));
        }
    }
}

/// A product with nothing in it is a trivial fragment: under the default
/// filter its split is given up, whatever else the split gives.
#[test]
fn an_empty_product_is_rejected() {
    let engine = Engine::new().rule("root", UREA, vec![vec![(9, "*CCCCCCCC"), (0, "")]]);
    let (fragments, requests) = decompose(&engine, "root", None, only(&[UREA]));
    assert_eq!(
        requests,
        vec![
            Request::Apply { node: 0, rule: UREA },
            Request::Identify { set: 0, product: 1 },
            Request::Done,
        ]
    );
    assert_eq!(identities(&fragments), vec!["root"]);
    // with a threshold the empty product has no atoms to show
    let (fragments, _) = decompose(&engine, "root", Some(1), only(&[UREA]));
    assert_eq!(identities(&fragments), vec!["root"]);
}
