use unicode_width::bits::Bits;
use unicode_width::bucket::Bucket;
use unicode_width::optimize::{optimal_table, scalar_values, search_table};

fn bit3_widths(n: usize) -> Vec<u8> {
    (0..n).map(|c| ((c >> 3) & 1) as u8).collect()
}

#[test]
fn single_bit_split_is_found() {
    let widths = bit3_widths(64);
    let chain = search_table(&widths, &[1], 0).unwrap();
    assert_eq!(chain.len(), 1);
    let (bits, ib) = &chain[0];
    assert_eq!(bits.indices(), &[3]);
    assert_eq!(ib.buckets().len(), 2);
    assert!(ib.is_uniform());
    assert_eq!(ib.indexes(), &[0, 1]);
    for b in ib.buckets() {
        assert!(b.is_uniform());
        assert_eq!(b.size(), 32);
    }
}

#[test]
fn empty_schedule_fails() {
    let widths = bit3_widths(16);
    assert!(search_table(&widths, &[], 1).is_none());
}

#[test]
fn too_small_schedule_fails() {
    // the width depends on bits 0 and 3 together: one bit cannot split it
    let widths: Vec<u8> = (0..16usize).map(|c| ((c & 1) ^ ((c >> 3) & 1)) as u8).collect();
    assert!(search_table(&widths, &[1], 0).is_none());
}

#[test]
fn two_level_table() {
    let widths: Vec<u8> = (0..16usize).map(|c| ((c & 1) ^ ((c >> 3) & 1)) as u8).collect();
    let chain = search_table(&widths, &[1, 1], 20).unwrap();
    assert_eq!(chain.len(), 2);
    let (outer, _) = &chain[1];
    let (inner, ib) = &chain[0];
    assert!(ib.is_uniform());
    assert_eq!(outer.count(), 1);
    assert_eq!(inner.count(), 1);
    assert!(outer.indices()[0] != inner.indices()[0]);
}

#[test]
fn optimal_table_on_given_parents() {
    let widths = bit3_widths(32);
    let chars: Vec<u32> = (0..32).collect();
    let root = Bucket::from_chars(&widths, &chars);
    let chain = optimal_table(&[root], Bits::range(0, 5), &[1, 2], 0).unwrap();
    assert_eq!(chain.len(), 1);
    assert_eq!(chain[0].0.indices(), &[3]);
}

#[test]
fn scalar_values_skip_surrogates() {
    let v = scalar_values(0xE002);
    assert_eq!(v.len(), 0xD800 + 2);
    assert_eq!(v[0xD7FF], 0xD7FF);
    assert_eq!(v[0xD800], 0xE000);
    assert_eq!(scalar_values(0x200000).len(), 0x110000 - 0x800);
}
