//! Display width of characters and strings, resolved from a width table.
use vstd::prelude::*;
use vstd::arithmetic::power2::pow2;
use crate::bits::{Bits, extracted, valid_indices};
use crate::search::{SearchTree, table_width, codepoint_class, lemma_class_bound, AMBIGUOUS};

verus! {

/// The slot value of the fast path that sends a lookup to the full descent.
pub const NEEDS_SEARCH: u8 = 4;

/// One past the largest codepoint.
pub const CODEPOINT_LIMIT: u32 = 0x110000;

/// The slot value of the fast path while no codepoint has reached the slot.
const UNSET: u8 = 5;

/// The columns of a width class in the given context: an ambiguous class
/// takes two columns in a CJK context and one elsewhere.
pub open spec fn resolve(class: nat, is_cjk: bool) -> nat {
    if class == AMBIGUOUS {
        if is_cjk {
            2
        } else {
            1
        }
    } else {
        class
    }
}

/// A width table with a direct-hash fast path: the slot of a codepoint's
/// hash holds its width class, or `NEEDS_SEARCH` where the codepoints of the
/// slot differ.
pub struct WidthTable {
    tree: SearchTree,
    hash_bits: Bits,
    hash_table: Vec<u8>,
}

impl WidthTable {
    pub closed spec fn tree(&self) -> SearchTree {
        self.tree
    }

    pub closed spec fn hash_bits(&self) -> Seq<u8> {
        self.hash_bits@
    }

    pub closed spec fn slots(&self) -> Seq<u8> {
        self.hash_table@
    }

    /// The fast-path slot of `c`.
    pub open spec fn slot_of(&self, c: nat) -> u8 {
        self.slots()[extracted(self.hash_bits(), c) as int]
    }

    /// The tree is well formed, there is a slot for every hash value, and
    /// each slot holds `NEEDS_SEARCH` or the class that the tree stores for
    /// every codepoint that hashes to it.
    pub open spec fn wf(&self) -> bool {
        &&& self.tree().wf()
        &&& valid_indices(self.hash_bits())
        &&& self.slots().len() == pow2(self.hash_bits().len())
        &&& forall|c: nat| c < CODEPOINT_LIMIT ==> #[trigger] self.slot_of(c) == NEEDS_SEARCH
            || (self.slot_of(c) as nat == self.tree().class_of(c) && self.slot_of(c) <= 3)
    }

    /// The search tree behind the fast path.
    pub fn search_tree(&self) -> (r: &SearchTree)
        ensures
            *r == self.tree(),
    {
        &self.tree
    }

    /// Builds the fast path of `tree`, hashing codepoints by `hash_bits`: a
    /// slot holds the class that all of its codepoints share, or
    /// `NEEDS_SEARCH`.
    pub fn new(tree: SearchTree, hash_bits: Bits) -> (r: WidthTable)
        requires
            tree.wf(),
            hash_bits.wf(),
        ensures
            r.wf(),
            r.tree() == tree,
            r.hash_bits() == hash_bits@,
    {
        proof {
            crate::bits::lemma_bits_wf_len(&hash_bits);
            vstd::bits::lemma_usize_pow2_no_overflow(hash_bits@.len());
            vstd::bits::lemma_usize_shl_is_mul(1, hash_bits@.len() as usize);
        }
        let n_slots: usize = 1usize << hash_bits.count();
        let mut hash_table: Vec<u8> = Vec::with_capacity(n_slots);
        let mut s: usize = 0;
        while s < n_slots
            invariant
                s <= n_slots,
                hash_table@.len() == s,
                forall|k: int| 0 <= k < s ==> hash_table@[k] == UNSET,
            decreases n_slots - s,
        {
            hash_table.push(UNSET);
            s = s + 1;
        }
        let mut c: u32 = 0;
        while c < CODEPOINT_LIMIT
            invariant
                tree.wf(),
                hash_bits.wf(),
                n_slots == pow2(hash_bits@.len()),
                hash_table@.len() == n_slots,
                c <= CODEPOINT_LIMIT,
                forall|d: nat| d < c ==> {
                    let v = #[trigger] hash_table@[extracted(hash_bits@, d) as int];
                    v == NEEDS_SEARCH || (v as nat == tree.class_of(d) && v <= 3)
                },
            decreases CODEPOINT_LIMIT - c,
        {
            let class = codepoint_class(&tree, c);
            let slot = hash_bits.extract(c as usize);
            let ghost before = hash_table@;
            if hash_table[slot] == UNSET {
                hash_table.set(slot, class as u8);
            } else if hash_table[slot] as usize != class {
                hash_table.set(slot, NEEDS_SEARCH);
            }
            proof {
                assert forall|d: nat| d < c + 1 implies {
                    let v = #[trigger] hash_table@[extracted(hash_bits@, d) as int];
                    v == NEEDS_SEARCH || (v as nat == tree.class_of(d) && v <= 3)
                } by {
                    crate::bits::lemma_extracted_bound(hash_bits@, d);
                    if d < c {
                        let v = before[extracted(hash_bits@, d) as int];
                        assert(v == NEEDS_SEARCH || (v as nat == tree.class_of(d) && v <= 3));
                        assert(v != UNSET);
                    }
                }
            }
            c = c + 1;
        }
        WidthTable { tree, hash_bits, hash_table }
    }
}

/// The width of `c` in columns, or `None` for a control character other
/// than NUL.
pub open spec fn char_width_spec(table: &WidthTable, c: char, is_cjk: bool) -> Option<usize> {
    if (c as u32) < 0x7F {
        if (c as u32) > 0x1F {
            Some(1)
        } else if (c as u32) == 0 {
            Some(0)
        } else {
            None
        }
    } else if (c as u32) >= 0xA0 {
        Some(resolve(table.tree().class_of(c as nat), is_cjk) as usize)
    } else {
        None
    }
}

/// The width of `c` in columns within a string, where a control character
/// counts as zero columns.
pub open spec fn char_width_raw_spec(table: &WidthTable, c: char, is_cjk: bool) -> nat {
    if (c as u32) < 0x7F {
        if (c as u32) >= 0x20 {
            1
        } else {
            0
        }
    } else {
        resolve(table.tree().class_of(c as nat), is_cjk)
    }
}

/// The width of `c` in columns, or `None` for a control character other
/// than NUL.
pub fn char_width(table: &WidthTable, c: char, is_cjk: bool) -> (r: Option<usize>)
    requires
        table.wf(),
    ensures
        r == char_width_spec(table, c, is_cjk),
        r matches Some(w) ==> w <= 2,
{
    let cp = c as u32;
    if cp < 0x7F {
        if cp > 0x1F {
            Some(1)
        } else if cp == 0 {
            Some(0)
        } else {
            None
        }
    } else if cp >= 0xA0 {
        let mut width = table_width(&table.tree, c);
        if width == AMBIGUOUS {
            width = if is_cjk { 2 } else { 1 };
        }
        Some(width)
    } else {
        None
    }
}

/// The width of `c` within a string: through the fast path where its slot
/// holds a class, else by the full descent.
pub fn char_width_raw(table: &WidthTable, c: char, is_cjk: bool) -> (r: usize)
    requires
        table.wf(),
    ensures
        r == char_width_raw_spec(table, c, is_cjk),
        r <= 2,
{
    proof {
        crate::bits::lemma_extracted_bound(table.hash_bits@, c as nat);
        assert(table.slot_of(c as nat) == NEEDS_SEARCH || (table.slot_of(c as nat) as nat == table.tree.class_of(c as nat) && table.slot_of(c as nat) <= 3));
    }
    let cp = c as u32;
    let mut width = table.hash_table[table.hash_bits.extract(cp as usize)] as usize;
    if cp < 0x7F {
        return if cp >= 0x20 { 1 } else { 0 };
    }
    if width == NEEDS_SEARCH as usize {
        width = table_width(&table.tree, c);
    }
    if width == AMBIGUOUS {
        width = if is_cjk { 2 } else { 1 };
    }
    width
}

/// The total width of `s` in columns within a string.
pub open spec fn str_width_spec(table: &WidthTable, s: Seq<char>, is_cjk: bool) -> nat
    decreases s.len(),
{
    if s.len() == 0 {
        0
    } else {
        str_width_spec(table, s.drop_last(), is_cjk) + char_width_raw_spec(table, s.last(), is_cjk)
    }
}

/// `n`, or `usize::MAX` where `n` is larger.
pub open spec fn saturated(n: nat) -> usize {
    if n > usize::MAX {
        usize::MAX
    } else {
        n as usize
    }
}

/// Methods for determining the displayed width of characters.
pub trait UnicodeWidthChar: Sized {
    /// The width of `self` in the given context, as the methods return it.
    spec fn width_in(self, table: &WidthTable, is_cjk: bool) -> Option<usize>;

    /// The character's displayed width in columns, or `None` for a control
    /// character other than NUL. An ambiguous character is one column wide,
    /// as outside a CJK context.
    fn width(self, table: &WidthTable) -> (r: Option<usize>)
        requires
            table.wf(),
        ensures
            r == self.width_in(table, false),
    ;

    /// The character's displayed width in columns, or `None` for a control
    /// character other than NUL. An ambiguous character is two columns wide,
    /// as in a CJK context.
    fn width_cjk(self, table: &WidthTable) -> (r: Option<usize>)
        requires
            table.wf(),
        ensures
            r == self.width_in(table, true),
    ;
}

impl UnicodeWidthChar for char {
    open spec fn width_in(self, table: &WidthTable, is_cjk: bool) -> Option<usize> {
        char_width_spec(table, self, is_cjk)
    }

    fn width(self, table: &WidthTable) -> (r: Option<usize>) {
        char_width(table, self, false)
    }

    fn width_cjk(self, table: &WidthTable) -> (r: Option<usize>) {
        char_width(table, self, true)
    }
}

/// Methods for determining the displayed width of strings.
pub trait UnicodeWidthStr {
    /// The width of `self` in the given context, as the methods return it.
    spec fn width_in(&self, table: &WidthTable, is_cjk: bool) -> usize;

    /// The string's displayed width in columns; control characters count as
    /// zero columns and ambiguous ones as one.
    fn width(&self, table: &WidthTable) -> (r: usize)
        requires
            table.wf(),
        ensures
            r == self.width_in(table, false),
    ;

    /// The string's displayed width in columns; control characters count as
    /// zero columns and ambiguous ones as two.
    fn width_cjk(&self, table: &WidthTable) -> (r: usize)
        requires
            table.wf(),
        ensures
            r == self.width_in(table, true),
    ;
}

/// The width of `s` in columns, saturating at `usize::MAX`.
pub fn str_width(table: &WidthTable, s: &str, is_cjk: bool) -> (r: usize)
    requires
        table.wf(),
    ensures
        r == saturated(str_width_spec(table, s@, is_cjk)),
{
    let mut total: usize = 0;
    for c in it: s.chars()
        invariant
            table.wf(),
            it.seq() == s@,
            total == saturated(str_width_spec(table, s@.take(it.index() as int), is_cjk)),
    {
        let w = char_width_raw(table, c, is_cjk);
        proof {
            let i = it.index() as int;
            assert(s@.take(i + 1).drop_last() =~= s@.take(i));
            assert(s@.take(i + 1).last() == c);
        }
        total = total.saturating_add(w);
    }
    proof {
        assert(s@.take(s@.len() as int) =~= s@);
    }
    total
}

impl UnicodeWidthStr for str {
    open spec fn width_in(&self, table: &WidthTable, is_cjk: bool) -> usize {
        saturated(str_width_spec(table, self@, is_cjk))
    }

    fn width(&self, table: &WidthTable) -> (r: usize) {
        str_width(table, self, false)
    }

    fn width_cjk(&self, table: &WidthTable) -> (r: usize) {
        str_width(table, self, true)
    }
}

/// For every codepoint, both contexts give 0, 1 or 2 columns, and they
/// differ only for an ambiguous class, which takes one column outside a CJK
/// context and two inside one.
pub proof fn lemma_context_only_ambiguous(tree: SearchTree, c: nat)
    requires
        tree.wf(),
        c < CODEPOINT_LIMIT,
    ensures
        resolve(tree.class_of(c), false) <= 2,
        resolve(tree.class_of(c), true) <= 2,
        resolve(tree.class_of(c), false) != resolve(tree.class_of(c), true) <==> tree.class_of(c) == AMBIGUOUS,
        tree.class_of(c) == AMBIGUOUS ==> resolve(tree.class_of(c), false) == 1 && resolve(tree.class_of(c), true) == 2,
{
    lemma_class_bound(tree, c);
}

/// For every codepoint, the fast path and the full descent agree on the
/// width class before the context resolves it: the slot either holds the
/// class that the tree stores or sends the lookup to the tree.
pub proof fn lemma_fast_path_agrees(table: &WidthTable, c: nat)
    requires
        table.wf(),
        c < CODEPOINT_LIMIT,
    ensures
        table.slot_of(c) == NEEDS_SEARCH || table.slot_of(c) as nat == table.tree().class_of(c),
{
}

/// A lookup depends on the table, the character and the context alone:
/// repeating it gives the same width.
pub proof fn lemma_lookup_repeatable(table: &WidthTable, c: char, is_cjk: bool, first: usize, second: usize)
    requires
        first == char_width_raw_spec(table, c, is_cjk),
        second == char_width_raw_spec(table, c, is_cjk),
    ensures
        first == second,
{
}

} // verus!
