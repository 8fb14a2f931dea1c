//! The fragment filter and the order in which products are examined.

use rdkit_rs::fragment::filter::{accepts, count_placeholders, is_trivial_fragment};
use rdkit_rs::fragment::order::order_by_size;

#[test]
fn placeholders_are_counted() {
    assert_eq!(count_placeholders(""), 0);
    assert_eq!(count_placeholders("CCO"), 0);
    assert_eq!(count_placeholders("*OCC"), 1);
    assert_eq!(count_placeholders("*C(=O)C/N=C\\C(CC)(CC)SSC(/C=N/CC(*)=O)(CC)CC"), 2);
    assert_eq!(count_placeholders("***"), 3);
}

#[test]
fn short_carbon_chains_are_trivial() {
    assert!(is_trivial_fragment(""));
    assert!(is_trivial_fragment("C"));
    assert!(is_trivial_fragment("CC"));
    assert!(is_trivial_fragment("CCC"));
    assert!(!is_trivial_fragment("CCCC"));
    assert!(!is_trivial_fragment("c"));
    assert!(!is_trivial_fragment("N"));
    assert!(!is_trivial_fragment("CO"));
    assert!(!is_trivial_fragment("CCO"));
}

#[test]
fn placeholders_and_empty_branches_do_not_count() {
    assert!(is_trivial_fragment("*"));
    assert!(is_trivial_fragment("*C"));
    assert!(is_trivial_fragment("*CC"));
    assert!(is_trivial_fragment("*CC*"));
    assert!(is_trivial_fragment("C(*)C"));
    assert!(is_trivial_fragment("*C(*)(*)CC"));
    assert!(is_trivial_fragment("(*)"));
    assert!(!is_trivial_fragment("*OCC"));
    assert!(!is_trivial_fragment("*CCCC"));
    assert!(!is_trivial_fragment("C(C)C"));
    assert!(!is_trivial_fragment("C(*)(C)CC"));
}

#[test]
fn empty_branches_are_removed_in_one_pass() {
    // what is left when the inner branch is gone is not looked at again
    assert!(!is_trivial_fragment("(())"));
    assert!(!is_trivial_fragment("C((*))"));
    // an empty branch that was there before the placeholders went goes too
    assert!(is_trivial_fragment("C()C"));
    assert!(is_trivial_fragment("()()"));
    assert!(!is_trivial_fragment("("));
    assert!(!is_trivial_fragment(")("));
}

#[test]
fn default_filter_rejects_trivial_fragments() {
    assert!(!accepts(0, 2, "*C"));
    assert!(!accepts(0, 3, "*CC"));
    assert!(!accepts(0, 4, "*CCC"));
    assert!(!accepts(0, 0, ""));
    assert!(!accepts(0, 100, "*CC"));
    assert!(accepts(0, 5, "*CCCC"));
    assert!(accepts(0, 4, "*OCC"));
    assert!(accepts(0, 0, "*OCC"));
}

#[test]
fn threshold_counts_atoms_less_placeholders() {
    assert!(accepts(1, 2, "*C"));
    assert!(!accepts(2, 2, "*C"));
    assert!(accepts(3, 4, "*OCC"));
    assert!(!accepts(4, 4, "*OCC"));
    assert!(accepts(4, 6, "*NCCN*"));
    assert!(!accepts(5, 6, "*NCCN*"));
    assert!(accepts(4, 4, "OCCN"));
    assert!(!accepts(1, 1, "*"));
    assert!(!accepts(1, 0, ""));
    // more placeholders than atoms: below any threshold
    assert!(!accepts(1, 1, "**"));
    assert!(accepts(usize::MAX, usize::MAX, "CC"));
    assert!(!accepts(usize::MAX, usize::MAX, "*CC"));
}

#[test]
fn order_is_ascending_by_size() {
    assert_eq!(order_by_size(&vec![]), Vec::<usize>::new());
    assert_eq!(order_by_size(&vec![7]), vec![0]);
    assert_eq!(order_by_size(&vec![3, 1, 2]), vec![1, 2, 0]);
    assert_eq!(order_by_size(&vec![1, 2, 3]), vec![0, 1, 2]);
    assert_eq!(order_by_size(&vec![9, 7, 5, 3]), vec![3, 2, 1, 0]);
}

#[test]
fn order_keeps_equal_sizes_in_place() {
    assert_eq!(order_by_size(&vec![2, 2, 1, 2]), vec![2, 0, 1, 3]);
    assert_eq!(order_by_size(&vec![5, 5, 5]), vec![0, 1, 2]);
    assert_eq!(order_by_size(&vec![4, 1, 4, 1]), vec![1, 3, 0, 2]);
}
