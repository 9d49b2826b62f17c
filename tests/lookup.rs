use unicode_width::bits::Bits;
use unicode_width::search::{table_width, Node, SearchTree, KEYS_PER_NODE};
use unicode_width::width::{char_width, char_width_raw, UnicodeWidthChar, UnicodeWidthStr, WidthTable};

fn ch(c: u32) -> char {
    char::from_u32(c).unwrap()
}

/// A node of the given boundaries, descending, padded with the last one.
fn node(keys: &[(u32, usize)]) -> Node {
    let last = *keys.last().unwrap();
    let mut all = [(ch(last.0), last.1); KEYS_PER_NODE];
    for (i, &(c, w)) in keys.iter().enumerate() {
        all[i] = (ch(c), w);
    }
    Node::from_keys(all)
}

fn flat_tree() -> SearchTree {
    let data = node(&[
        (0x3001, 1),
        (0x3000, 2),
        (0xA2, 1),
        (0xA1, 3),
        (0xA0, 1),
        (0x7F, 0),
        (0x20, 1),
        (0x00, 0),
    ]);
    SearchTree::new(vec![], vec![], vec![data]).unwrap()
}

/// One search layer over seventeen data nodes: child `i` covers the
/// codepoints below `0x1000 * (17 - i)` and from `0x1000 * (16 - i)` on.
fn layered_tree() -> SearchTree {
    let keys: Vec<(u32, usize)> = (0..16).map(|j| (0x1000 * (16 - j), 0)).collect();
    let search = node(&keys);
    let mut data = Vec::new();
    for i in 0..17u32 {
        let start = if i < 16 { 0x1000 * (16 - i) } else { 0 };
        let n = if i == 13 {
            node(&[(0x3001, 1), (0x3000, 2)])
        } else if i == 16 {
            node(&[(0xA2, 1), (0xA1, 3), (0xA0, 1), (0x7F, 0), (0x20, 1), (0x00, 0)])
        } else {
            node(&[(start, 1)])
        };
        data.push(n);
    }
    SearchTree::new(vec![0], vec![search], data).unwrap()
}

#[test]
fn tree_shape_is_checked() {
    assert!(SearchTree::new(vec![], vec![], vec![]).is_none());
    assert!(SearchTree::new(vec![0], vec![], vec![node(&[(0, 1)])]).is_none());
    let few: Vec<Node> = (0..16).map(|_| node(&[(0, 1)])).collect();
    assert!(SearchTree::new(vec![0], vec![node(&[(0, 1)])], few).is_none());
}

#[test]
fn flat_tree_lookup() {
    let t = flat_tree();
    assert_eq!(table_width(&t, 'A'), 1);
    assert_eq!(table_width(&t, '\u{3000}'), 2);
    assert_eq!(table_width(&t, '\u{3001}'), 1);
    assert_eq!(table_width(&t, '\u{A1}'), 3);
    assert_eq!(table_width(&t, '\u{7F}'), 0);
    assert_eq!(table_width(&t, '\u{10FFFF}'), 1);
}

#[test]
fn layered_tree_lookup() {
    let t = layered_tree();
    assert_eq!(table_width(&t, 'A'), 1);
    assert_eq!(table_width(&t, '\u{0}'), 0);
    assert_eq!(table_width(&t, '\u{3000}'), 2);
    assert_eq!(table_width(&t, '\u{3FFF}'), 1);
    assert_eq!(table_width(&t, '\u{A1}'), 3);
    assert_eq!(table_width(&t, '\u{FFF}'), 1);
    assert_eq!(table_width(&t, '\u{10FFFF}'), 1);
}

#[test]
fn known_characters_in_both_contexts() {
    let table = WidthTable::new(layered_tree(), Bits::range(8, 14));
    assert_eq!('A'.width(&table), Some(1));
    assert_eq!('A'.width_cjk(&table), Some(1));
    assert_eq!('\u{0}'.width(&table), Some(0));
    assert_eq!('\u{0}'.width_cjk(&table), Some(0));
    assert_eq!('\u{3000}'.width(&table), Some(2));
    assert_eq!('\u{3000}'.width_cjk(&table), Some(2));
    assert_eq!('\u{A1}'.width(&table), Some(1));
    assert_eq!('\u{A1}'.width_cjk(&table), Some(2));
}

#[test]
fn control_characters_have_no_width() {
    let table = WidthTable::new(flat_tree(), Bits::range(0, 4));
    assert_eq!(char_width(&table, '\u{1}', false), None);
    assert_eq!(char_width(&table, '\u{1F}', true), None);
    assert_eq!(char_width(&table, '\u{7F}', false), None);
    assert_eq!(char_width(&table, '\u{9F}', false), None);
    assert_eq!(char_width(&table, ' ', false), Some(1));
    assert_eq!(char_width_raw(&table, '\u{1}', false), 0);
    assert_eq!(char_width_raw(&table, '\u{7F}', false), 0);
}

#[test]
fn fast_path_agrees_with_descent() {
    let table = WidthTable::new(layered_tree(), Bits::range(6, 12));
    let tree = table.search_tree();
    for c in (0x7Fu32..0x110000).step_by(7).chain(0x2FF0..0x3010).chain(0x9E..0xA8) {
        if let Some(c) = char::from_u32(c) {
            let class = table_width(tree, c);
            let (plain, cjk) = if class == 3 { (1, 2) } else { (class, class) };
            assert_eq!(char_width_raw(&table, c, false), plain);
            assert_eq!(char_width_raw(&table, c, true), cjk);
        }
    }
}

#[test]
fn contexts_differ_only_for_ambiguous() {
    let table = WidthTable::new(layered_tree(), Bits::range(12, 18));
    for c in (0u32..0x110000).step_by(13).chain(0x9E..0xA8) {
        if let Some(c) = char::from_u32(c) {
            let a = char_width_raw(&table, c, false);
            let b = char_width_raw(&table, c, true);
            assert!(a <= 2 && b <= 2);
            assert_eq!(a, char_width_raw(&table, c, false));
            if a != b {
                assert_eq!(table_width(table.search_tree(), c), 3);
                assert_eq!((a, b), (1, 2));
            }
        }
    }
}

#[test]
fn string_width_sums_characters() {
    let table = WidthTable::new(layered_tree(), Bits::range(8, 14));
    assert_eq!("".width(&table), 0);
    assert_eq!("Ab\u{3000}".width(&table), 4);
    assert_eq!("A\u{A1}".width(&table), 2);
    assert_eq!("A\u{A1}".width_cjk(&table), 3);
    assert_eq!("a\u{1}b".width(&table), 2);
}
