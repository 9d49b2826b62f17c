use unicode_width::bits::{binomial, Bits, UNICODE_BITS};

fn bits(v: &[u8]) -> Bits {
    Bits::from_indices(v.to_vec()).unwrap()
}

#[test]
fn from_indices_accepts_ascending_positions() {
    let b = bits(&[0, 3, 20]);
    assert_eq!(b.indices(), &[0, 3, 20]);
    assert_eq!(b.count(), 3);
}

#[test]
fn from_indices_rejects_unsorted_repeated_or_large() {
    assert!(Bits::from_indices(vec![3, 1]).is_none());
    assert!(Bits::from_indices(vec![2, 2]).is_none());
    assert!(Bits::from_indices(vec![UNICODE_BITS]).is_none());
    assert!(Bits::from_indices(vec![]).is_some());
}

#[test]
fn range_lists_consecutive_positions() {
    let b = Bits::range(0, UNICODE_BITS);
    assert_eq!(b.count(), 21);
    assert_eq!(b.indices()[20], 20);
    assert_eq!(Bits::range(4, 4).count(), 0);
}

#[test]
fn without_removes_shared_positions() {
    let a = bits(&[0, 1, 2, 5, 7, 9]);
    let b = bits(&[1, 5, 6, 9, 10]);
    assert_eq!(a.without(&b).indices(), &[0, 2, 7]);
    assert_eq!(a.without(&bits(&[])).indices(), a.indices());
    assert_eq!(a.without(&a).count(), 0);
}

#[test]
fn extract_packs_selected_bits_low_first() {
    let b = bits(&[1, 3, 4]);
    // bits 1, 3, 4 of 0b11010 are 1, 1, 1
    assert_eq!(b.extract(0b11010), 0b111);
    // bits 1, 3, 4 of 0b01010 are 1, 1, 0
    assert_eq!(b.extract(0b01010), 0b011);
    assert_eq!(b.extract(0b10000), 0b100);
    assert_eq!(bits(&[]).extract(12345), 0);
    assert_eq!(bits(&[3]).extract(0x3000 + 8), 1);
}

#[test]
fn discontinuities_count_gaps() {
    assert_eq!(bits(&[]).discontinuities(), 0);
    assert_eq!(bits(&[4]).discontinuities(), 0);
    assert_eq!(bits(&[1, 2, 3]).discontinuities(), 0);
    assert_eq!(bits(&[1, 2, 5, 6, 9]).discontinuities(), 2);
}

#[test]
fn binomial_values() {
    assert_eq!(binomial(5, 2), 10);
    assert_eq!(binomial(21, 6), 54264);
    assert_eq!(binomial(21, 10), 352716);
    assert_eq!(binomial(4, 0), 1);
    assert_eq!(binomial(3, 5), 0);
    assert_eq!(binomial(21, 21), 1);
}

#[test]
fn combinations_yield_each_subset_once() {
    let b = bits(&[2, 4, 6, 8, 10]);
    let mut comb = b.combinations(2);
    assert_eq!(comb.len(), 10);
    let mut seen: Vec<Vec<u8>> = Vec::new();
    let mut left = comb.len();
    while let Some(s) = comb.next() {
        left -= 1;
        assert_eq!(comb.len(), left);
        assert_eq!(s.count(), 2);
        assert!(s.indices()[0] < s.indices()[1]);
        for x in s.indices() {
            assert!(b.indices().contains(x));
        }
        assert!(!seen.contains(&s.indices().to_vec()));
        seen.push(s.indices().to_vec());
    }
    assert_eq!(seen.len(), 10);
    assert_eq!(comb.len(), 0);
    assert!(comb.next().is_none());
}

#[test]
fn combinations_start_with_highest_positions() {
    let b = bits(&[0, 1, 2, 3]);
    let mut comb = b.combinations(2);
    assert_eq!(comb.next().unwrap().indices(), &[2, 3]);
    assert_eq!(comb.next().unwrap().indices(), &[1, 3]);
    assert_eq!(comb.next().unwrap().indices(), &[0, 3]);
    assert_eq!(comb.next().unwrap().indices(), &[1, 2]);
    assert_eq!(comb.next().unwrap().indices(), &[0, 2]);
    assert_eq!(comb.next().unwrap().indices(), &[0, 1]);
    assert!(comb.next().is_none());
}

#[test]
fn combinations_of_full_range() {
    let b = Bits::range(0, UNICODE_BITS);
    let mut comb = b.combinations(6);
    assert_eq!(comb.len(), 54264);
    let mut n = 0usize;
    while let Some(s) = comb.next() {
        assert_eq!(s.count(), 6);
        n += 1;
    }
    assert_eq!(n, 54264);
}

#[test]
fn combinations_edge_sizes() {
    let b = bits(&[1, 2, 3]);
    let mut none = b.combinations(4);
    assert_eq!(none.len(), 0);
    assert!(none.next().is_none());
    let mut empty = b.combinations(0);
    assert_eq!(empty.len(), 1);
    assert_eq!(empty.next().unwrap().count(), 0);
    assert!(empty.next().is_none());
    let mut all = b.combinations(3);
    assert_eq!(all.next().unwrap().indices(), &[1, 2, 3]);
    assert!(all.next().is_none());
}
