//! The rule table, the rows of flat answers, the error and the parser
//! settings.

use rdkit_rs::fragment::rules::{reaction_pattern, REACTION_DEFS, RULE_COUNT};
use rdkit_rs::rows::{chunk_rows, regroup};
use rdkit_rs::{RDError, SmilesParserParams};

#[test]
fn rule_table_has_twelve_rules() {
    assert_eq!(RULE_COUNT, 12);
    assert_eq!(REACTION_DEFS.len(), RULE_COUNT);
    for rule in 0..RULE_COUNT {
        assert_eq!(reaction_pattern(rule), REACTION_DEFS[rule]);
    }
    assert_eq!(reaction_pattern(5), "[#6:1]-!@[O;+0]-!@[#6:2]>>[#6:1]*.*[#6:2]");
    assert_eq!(reaction_pattern(2), "[C:1](=!@[O:2])!@[O;+0:3]>>*[C:1]=[O:2].[O:3]*");
}

#[test]
fn every_rule_has_one_reactant_and_marked_products() {
    for pattern in REACTION_DEFS {
        let sides: Vec<&str> = pattern.split(">>").collect();
        assert_eq!(sides.len(), 2);
        assert!(!sides[0].contains('.'));
        let products: Vec<&str> = sides[1].split('.').collect();
        assert!(products.len() == 1 || products.len() == 2);
        for product in products {
            assert!(product.contains('*'));
        }
    }
}

#[test]
fn regroup_cuts_rows_of_given_lengths() {
    let rows = regroup(vec!['a', 'b', 'c', 'd', 'e'], &vec![2, 0, 3]);
    assert_eq!(rows, vec![vec!['a', 'b'], vec![], vec!['c', 'd', 'e']]);
    let rows = regroup(Vec::<u8>::new(), &vec![]);
    assert_eq!(rows, Vec::<Vec<u8>>::new());
    let rows = regroup(Vec::<u8>::new(), &vec![0, 0]);
    assert_eq!(rows, vec![Vec::<u8>::new(), Vec::new()]);
    let rows = regroup(vec![String::from("x")], &vec![1]);
    assert_eq!(rows, vec![vec![String::from("x")]]);
}

#[test]
fn chunk_rows_cuts_rows_of_one_width() {
    assert_eq!(chunk_rows(&[], 3), Vec::<Vec<usize>>::new());
    assert_eq!(chunk_rows(&[1, 2, 3, 4, 5, 6], 3), vec![vec![1, 2, 3], vec![4, 5, 6]]);
    assert_eq!(chunk_rows(&[1, 2, 3, 4, 5], 2), vec![vec![1, 2], vec![3, 4], vec![5]]);
    assert_eq!(chunk_rows(&[1, 2], 5), vec![vec![1, 2]]);
    assert_eq!(chunk_rows(&[1, 2], usize::MAX), vec![vec![1, 2]]);
    assert_eq!(chunk_rows(&[7, 8, 9], 1), vec![vec![7], vec![8], vec![9]]);
}

#[test]
fn error_has_one_message() {
    assert_eq!(RDError.message(), "RDError: see stderr for exception info");
}

#[test]
fn json_error_becomes_the_error() {
    let broken = serde_json::from_str::<serde_json::Value>("{").unwrap_err();
    let error = RDError::from(broken);
    assert_eq!(error.message(), "RDError: see stderr for exception info");
    assert_eq!(format!("{:?}", error), "RDError");
}

#[test]
fn parser_defaults() {
    let params = SmilesParserParams::default();
    assert!(params.remove_hs);
    assert!(params.sanitize);
}
