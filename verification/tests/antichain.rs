use timely::frontier::Antichain;
use timely::frontier::AntichainRef;

#[test]
fn insert_on_totals_keeps_minimum() {
    let mut frontier: Antichain<u64> = Antichain::new();
    assert!(frontier.insert(3));
    assert_eq!(frontier.elements(), &[3]);
    assert!(frontier.insert(1));
    assert_eq!(frontier.elements(), &[1]);
    assert!(!frontier.insert(2));
    assert_eq!(frontier.elements(), &[1]);
    assert!(!frontier.insert(5));
    assert_eq!(frontier.elements(), &[1]);
    assert!(!frontier.insert(4));
    assert_eq!(frontier.elements(), &[1]);
}

#[test]
fn insert_on_pairs_product_order() {
    let mut frontier: Antichain<(u64, u64)> = Antichain::new();
    assert!(frontier.insert((1, 5)));
    assert!(frontier.insert((5, 1)));
    assert!(frontier.insert((3, 3)));
    assert!(frontier.insert((2, 4)));
    let mut elements = frontier.elements().to_vec();
    elements.sort();
    assert_eq!(elements, vec![(1, 5), (2, 4), (3, 3), (5, 1)]);
    // no pair is component-wise at or below another distinct pair
    for &a in frontier.elements() {
        for &b in frontier.elements() {
            if a != b {
                assert!(!(a.0 <= b.0 && a.1 <= b.1));
            }
        }
    }
    assert!(frontier.insert((0, 0)));
    assert_eq!(frontier.elements(), &[(0, 0)]);
}

#[test]
fn insert_equivalent_element_is_rejected() {
    let mut frontier: Antichain<u64> = Antichain::from_elem(7);
    assert!(!frontier.insert(7));
    assert_eq!(frontier.elements(), &[7]);
}

#[test]
fn from_elem_makes_singleton() {
    let frontier: Antichain<u64> = Antichain::from_elem(4);
    assert_eq!(frontier.elements(), &[4]);
}

#[test]
fn clear_empties_the_antichain() {
    let mut frontier: Antichain<u64> = Antichain::from_elem(4);
    frontier.clear();
    assert_eq!(frontier.elements().len(), 0);
}

#[test]
fn antichain_less_than_and_less_equal() {
    let mut frontier: Antichain<u64> = Antichain::new();
    frontier.insert(1);
    assert!(!frontier.less_than(&0));
    assert!(!frontier.less_than(&1));
    assert!(frontier.less_than(&2));
    assert!(!frontier.less_equal(&0));
    assert!(frontier.less_equal(&1));
    assert!(frontier.less_equal(&2));
}

#[test]
fn dominates_checks_every_element() {
    let mut lower: Antichain<(u64, u64)> = Antichain::new();
    lower.insert((1, 2));
    lower.insert((2, 1));
    let mut upper: Antichain<(u64, u64)> = Antichain::new();
    upper.insert((2, 2));
    assert!(lower.dominates(&upper));
    assert!(!upper.dominates(&lower));
    let empty: Antichain<(u64, u64)> = Antichain::new();
    assert!(lower.dominates(&empty));
    assert!(!empty.dominates(&lower));
}

#[test]
fn sort_orders_elements() {
    let mut frontier: Antichain<(u64, u64)> = Antichain::new();
    frontier.insert((1, 5));
    frontier.insert((5, 1));
    frontier.insert((3, 3));
    frontier.sort();
    assert_eq!(frontier.elements(), &[(1, 5), (3, 3), (5, 1)]);
}

#[test]
fn antichain_ref_is_empty_and_len() {
    let frontier = AntichainRef::<usize>::new(&[]);
    assert!(frontier.is_empty());
    assert_eq!(frontier.len(), 0);
    let one = [1u64];
    let frontier = AntichainRef::new(&one);
    assert!(!frontier.is_empty());
    assert_eq!(frontier.len(), 1);
}

#[test]
fn antichain_ref_iteration() {
    let elements = [1u64];
    let frontier = AntichainRef::new(&elements);
    let mut iter = frontier.iter().iter();
    assert_eq!(iter.next(), Some(&1u64));
    assert_eq!(iter.next(), None);
}

#[test]
fn antichain_ref_less_than_and_less_equal() {
    let elements = [1u64];
    let frontier = AntichainRef::new(&elements);
    assert!(!frontier.less_than(&0));
    assert!(!frontier.less_than(&1));
    assert!(frontier.less_than(&2));
    assert!(!frontier.less_equal(&0));
    assert!(frontier.less_equal(&1));
    assert!(frontier.less_equal(&2));
}

#[test]
fn antichain_ref_to_vec_copies() {
    let elements = [2u64, 5];
    let frontier = AntichainRef::new(&elements);
    assert_eq!(frontier.to_vec(), vec![2, 5]);
}

#[test]
fn default_antichain_is_empty() {
    let frontier: Antichain<u64> = Default::default();
    assert_eq!(frontier.elements().len(), 0);
}
