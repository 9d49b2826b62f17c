use unicode_width::bits::Bits;
use unicode_width::bucket::{make_buckets, Bucket, IndexedBuckets};

fn bucket(entries: &[(u32, u8)]) -> Bucket {
    let mut b = Bucket::with_capacity(entries.len());
    for &(c, w) in entries {
        b.push(c, w);
    }
    b
}

#[test]
fn push_keeps_members_and_pattern() {
    let b = bucket(&[(1, 0), (4, 2), (9, 1)]);
    assert_eq!(b.size(), 3);
    assert_eq!(b.iter(), &[(1, 0), (4, 2), (9, 1)]);
    assert_eq!(b.width_pattern(), &[0, 2, 1]);
}

#[test]
fn from_chars_reads_widths_by_codepoint() {
    let widths = [0u8, 1, 1, 2, 3, 1];
    let b = Bucket::from_chars(&widths, &[0, 3, 4]);
    assert_eq!(b.iter(), &[(0, 0), (3, 2), (4, 3)]);
    assert_eq!(b.width_pattern(), &[0, 2, 3]);
}

#[test]
fn consume_merges_when_shorter_is_prefix() {
    let mut a = bucket(&[(1, 1), (5, 1), (9, 2)]);
    let b = bucket(&[(2, 1), (6, 1)]);
    assert!(a.consume(&b));
    assert_eq!(a.width_pattern(), &[1, 1, 2]);
    assert_eq!(a.iter(), &[(1, 1), (2, 1), (5, 1), (6, 1), (9, 2)]);
}

#[test]
fn consume_takes_the_longer_pattern() {
    let mut a = bucket(&[(3, 0)]);
    let b = bucket(&[(4, 0), (8, 2)]);
    assert!(a.consume(&b));
    assert_eq!(a.width_pattern(), &[0, 2]);
    assert_eq!(a.iter(), &[(3, 0), (4, 0), (8, 2)]);
}

#[test]
fn consume_refuses_incompatible_patterns() {
    let mut a = bucket(&[(1, 1), (5, 2)]);
    let b = bucket(&[(2, 2)]);
    assert!(!a.consume(&b));
    assert_eq!(a.iter(), &[(1, 1), (5, 2)]);
    assert_eq!(a.width_pattern(), &[1, 2]);
}

#[test]
fn consume_accepts_empty_bucket() {
    let mut a = bucket(&[(1, 1)]);
    assert!(a.consume(&bucket(&[])));
    assert_eq!(a.iter(), &[(1, 1)]);
    let mut e = bucket(&[]);
    assert!(e.consume(&a));
    assert_eq!(e.width_pattern(), &[1]);
}

#[test]
fn uniform_bucket() {
    assert!(bucket(&[]).is_uniform());
    assert!(bucket(&[(1, 2), (3, 2)]).is_uniform());
    assert!(!bucket(&[(1, 2), (3, 1)]).is_uniform());
}

#[test]
fn make_buckets_splits_by_hash() {
    let parent = bucket(&[(0, 0), (1, 1), (2, 0), (3, 1), (6, 2)]);
    let bits = Bits::from_indices(vec![0]).unwrap();
    let out = make_buckets(&parent, &bits);
    assert_eq!(out.len(), 2);
    assert_eq!(out[0].iter(), &[(0, 0), (2, 0), (6, 2)]);
    assert_eq!(out[1].iter(), &[(1, 1), (3, 1)]);
    assert_eq!(out[0].width_pattern(), &[0, 0, 2]);
}

#[test]
fn dedup_maps_inputs_to_kept_buckets() {
    let input = vec![
        bucket(&[(0, 1), (4, 1), (8, 2)]),
        bucket(&[(1, 1), (5, 1)]),
        bucket(&[(2, 2)]),
        bucket(&[(3, 2), (7, 0)]),
    ];
    let ib = IndexedBuckets::from_buckets(input);
    assert_eq!(ib.indexes(), &[0, 0, 1, 1]);
    assert_eq!(ib.buckets().len(), 2);
    assert_eq!(ib.buckets()[0].iter(), &[(0, 1), (1, 1), (4, 1), (5, 1), (8, 2)]);
    assert_eq!(ib.buckets()[1].width_pattern(), &[2, 0]);
    assert_eq!(ib.buckets()[1].iter(), &[(2, 2), (3, 2), (7, 0)]);
    assert!(!ib.is_uniform());
}

#[test]
fn dedup_of_uniform_buckets() {
    let input = vec![bucket(&[(0, 1), (2, 1)]), bucket(&[(1, 0), (3, 0)])];
    let ib = IndexedBuckets::from_buckets(input);
    assert_eq!(ib.indexes(), &[0, 1]);
    assert!(ib.is_uniform());
}
