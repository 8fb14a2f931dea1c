//! Bit vectors and fingerprints.

use rdkit_rs::bitvector::BitVector;
use rdkit_rs::fingerprint::{format_bit_vec, intersect, tanimoto_counts};

fn bits(text: &str) -> Vec<bool> {
    text.chars().map(|c| c == '1').collect()
}

#[test]
fn new_is_empty() {
    let bv = BitVector::new();
    assert_eq!(bv.len(), 0);
    assert!(bv.is_empty());
    assert_eq!(bv.count(), 0);
    assert_eq!(bv.iter().count(), 0);
    assert_eq!(bv.to_binary_text(), "");
    let bv = BitVector::default();
    assert!(bv.is_empty());
}

#[test]
fn from_no_bits() {
    let none: Vec<bool> = Vec::new();
    let bv = BitVector::from(&none[..]);
    assert!(bv.is_empty());
    assert_eq!(bv.count(), 0);
}

#[test]
fn from_packs_least_significant_first() {
    let input = bits("1011");
    let bv = BitVector::from(&input[..]);
    assert_eq!(bv.len(), 1);
    assert!(!bv.is_empty());
    assert_eq!(*bv.index(0), 0b1101);
    assert_eq!(bv.count(), 3);
    assert_eq!(bv.iter().copied().collect::<Vec<u64>>(), vec![0b1101]);
}

#[test]
fn from_fills_words_of_64_bits() {
    let mut input = vec![false; 130];
    input[0] = true;
    input[63] = true;
    input[64] = true;
    input[129] = true;
    let bv = BitVector::from(&input[..]);
    assert_eq!(bv.len(), 3);
    assert_eq!(*bv.index(0), 1 | (1 << 63));
    assert_eq!(*bv.index(1), 1);
    assert_eq!(*bv.index(2), 2);
    assert_eq!(bv.count(), 4);
    let full = vec![true; 64];
    let bv = BitVector::from(&full[..]);
    assert_eq!(bv.len(), 1);
    assert_eq!(*bv.index(0), u64::MAX);
    assert_eq!(bv.count(), 64);
    let one_more = vec![true; 65];
    let bv = BitVector::from(&one_more[..]);
    assert_eq!(bv.len(), 2);
    assert_eq!(bv.count(), 65);
}

#[test]
fn binary_text_has_a_line_for_each_word() {
    let input = bits("101");
    let bv = BitVector::from(&input[..]);
    let mut want = "0".repeat(61);
    want.push_str("101\n");
    assert_eq!(bv.to_binary_text(), want);
    let mut input = vec![false; 65];
    input[63] = true;
    input[64] = true;
    let bv = BitVector::from(&input[..]);
    let mut want = String::from("1");
    want.push_str(&"0".repeat(63));
    want.push('\n');
    want.push_str(&"0".repeat(63));
    want.push_str("1\n");
    assert_eq!(bv.to_binary_text(), want);
}

#[test]
fn intersect_counts_shared_bits() {
    let a = bits("110110");
    let b = bits("011011");
    let a = BitVector::from(&a[..]);
    let b = BitVector::from(&b[..]);
    assert_eq!(intersect(&a, &b), 2);
    assert_eq!(intersect(&a, &a), 4);
    assert_eq!(intersect(&a, &BitVector::new()), 0);
}

#[test]
fn intersect_stops_at_the_shorter_vector() {
    let long = vec![true; 200];
    let short = vec![true; 70];
    let long = BitVector::from(&long[..]);
    let short = BitVector::from(&short[..]);
    assert_eq!(intersect(&long, &short), 70);
    assert_eq!(intersect(&short, &long), 70);
    assert_eq!(long.count() + short.count() - intersect(&long, &short), 200);
}

#[test]
fn tanimoto_counts_shared_and_either() {
    let a = bits("110110");
    let b = bits("011011");
    let a = BitVector::from(&a[..]);
    let b = BitVector::from(&b[..]);
    assert_eq!(tanimoto_counts(&a, &b), (2, 6));
    assert_eq!(tanimoto_counts(&a, &a), (4, 4));
    assert_eq!(tanimoto_counts(&a, &BitVector::new()), (0, 4));
    assert_eq!(tanimoto_counts(&BitVector::new(), &BitVector::new()), (0, 0));
    let (num, den) = tanimoto_counts(&a, &b);
    assert_eq!(num as f64 / den as f64, 2.0 / 6.0);
}

#[test]
fn bit_vec_text_groups_by_four() {
    assert_eq!(format_bit_vec(&[]), "");
    assert_eq!(format_bit_vec(&[1]), " 1\n");
    assert_eq!(format_bit_vec(&[1, 0, 1, 1, 0]), " 1011 0\n");
    assert_eq!(format_bit_vec(&[0, 12, 345, 6, 7890]), " 0123456 7890\n");
    assert_eq!(format_bit_vec(&[usize::MAX]), format!(" {}\n", usize::MAX));
}

#[test]
fn bit_vec_text_breaks_after_64_entries() {
    let row = " 1111".repeat(16);
    assert_eq!(format_bit_vec(&[1; 64]), format!("{row}\n"));
    assert_eq!(format_bit_vec(&[1; 65]), format!("{row}\n 1\n"));
    assert_eq!(format_bit_vec(&[1; 128]), format!("{row}\n{row}\n"));
}
