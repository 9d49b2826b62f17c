//! The runtime width table: layers of fixed-size nodes of sorted range
//! boundaries, descended from a codepoint to its width class.
use vstd::prelude::*;

verus! {

/// Keys per node: sixteen 32-bit keys fill one 64-byte cache line.
pub const KEYS_PER_NODE: usize = 16;

/// Children per node of a search layer.
pub const FANOUT: usize = 17;

const CODEPOINT_SHIFT: u32 = 4;

const WIDTH_MASK: u32 = 0b11;

/// The width class that stands for "ambiguous": one column outside a CJK
/// context, two inside one.
pub const AMBIGUOUS: usize = 3;

/// A key as the codepoint that starts a range and the width class of it.
pub open spec fn key_view(k: u32) -> (nat, nat) {
    ((k / 16) as nat, (k % 16) as nat)
}

/// The number of leading boundaries of `s`, from `i` on, that start above `c`.
pub open spec fn above_from(s: Seq<(nat, nat)>, c: nat, i: int) -> nat
    decreases s.len() - i,
{
    if 0 <= i < s.len() && s[i].0 > c {
        1 + above_from(s, c, i + 1)
    } else {
        0
    }
}

/// The number of leading boundaries of `s` that start above `c`: in a node
/// sorted in descending order, the slot of the range that holds `c`.
pub open spec fn leading_above(s: Seq<(nat, nat)>, c: nat) -> nat {
    above_from(s, c, 0)
}

/// The width stored by a data node for `c`: that of the first boundary at or
/// below `c`, or of the last key where there is none.
pub open spec fn node_class(s: Seq<(nat, nat)>, c: nat) -> nat {
    let i = leading_above(s, c);
    if i < KEYS_PER_NODE - 1 {
        s[i as int].1
    } else {
        s[KEYS_PER_NODE - 1].1
    }
}

/// The number of nodes in search layer `l`.
pub open spec fn layer_span(l: nat) -> nat
    decreases l,
{
    if l == 0 {
        1
    } else {
        (FANOUT * layer_span((l - 1) as nat)) as nat
    }
}

proof fn lemma_encode(c: u32, w: u32)
    requires
        c < 0x110000,
        w <= 4,
    ensures
        (c << CODEPOINT_SHIFT) | w == c * 16 + w,
{
    assert((c << 4u32) | w == c * 16 + w) by (bit_vector)
        requires
            c < 0x110000,
            w <= 4,
    ;
}

proof fn lemma_low_bits(k: u32)
    requires
        k % 16 <= 3,
    ensures
        k & WIDTH_MASK == k % 16,
{
    assert(k & 3 == k % 16) by (bit_vector)
        requires
            k % 16 <= 3,
    ;
}

/// A codepoint shifted left with a low bit above every width class, so that
/// a key compares below it exactly when its codepoint is at most this one.
#[derive(Clone, Copy)]
struct Needle(u32);

impl Needle {
    fn new(codepoint: char) -> (r: Needle)
        ensures
            r.0 == (codepoint as u32) * 16 + 4,
    {
        Needle::from_u32(codepoint as u32)
    }

    fn from_u32(codepoint: u32) -> (r: Needle)
        requires
            codepoint < 0x110000,
        ensures
            r.0 == codepoint * 16 + 4,
    {
        proof {
            lemma_encode(codepoint, 4);
        }
        Needle((codepoint << CODEPOINT_SHIFT) | (WIDTH_MASK + 1))
    }
}

/// A range boundary: a codepoint shifted left, with a width class in the
/// low bits.
#[derive(Clone, Copy)]
struct Key(u32);

impl Key {
    fn new(codepoint: char, width: usize) -> (r: Key)
        requires
            width <= WIDTH_MASK,
        ensures
            key_view(r.0) == (codepoint as nat, width as nat),
            r.0 % 16 <= 3,
    {
        proof {
            lemma_encode(codepoint as u32, width as u32);
        }
        Key(((codepoint as u32) << CODEPOINT_SHIFT) | (width as u32))
    }

    fn less_than(&self, needle: Needle) -> (r: bool)
        requires
            self.0 % 16 <= 3,
            needle.0 % 16 == 4,
        ensures
            r == (key_view(self.0).0 <= needle.0 / 16),
    {
        self.0 < needle.0
    }

    fn width(&self) -> (r: usize)
        requires
            self.0 % 16 <= 3,
        ensures
            r == key_view(self.0).1,
    {
        proof {
            lemma_low_bits(self.0);
        }
        (self.0 & WIDTH_MASK) as usize
    }
}

/// A group of `KEYS_PER_NODE` range boundaries, sorted in descending order.
pub struct Node {
    keys: [Key; KEYS_PER_NODE],
}

impl View for Node {
    type V = Seq<(nat, nat)>;

    closed spec fn view(&self) -> Seq<(nat, nat)> {
        self.keys@.map_values(|k: Key| key_view(k.0))
    }
}

proof fn lemma_above_prefix(s: Seq<(nat, nat)>, c: nat, i: int)
    requires
        0 <= i <= s.len(),
        forall|j: int| 0 <= j < i ==> s[j].0 > c,
    ensures
        leading_above(s, c) == i + above_from(s, c, i),
    decreases i,
{
    if i > 0 {
        lemma_above_prefix_step(s, c, 0, i);
    }
}

proof fn lemma_above_prefix_step(s: Seq<(nat, nat)>, c: nat, j: int, i: int)
    requires
        0 <= j <= i <= s.len(),
        forall|m: int| 0 <= m < i ==> s[m].0 > c,
    ensures
        above_from(s, c, j) == (i - j) + above_from(s, c, i),
    decreases i - j,
{
    if j < i {
        lemma_above_prefix_step(s, c, j + 1, i);
    }
}

proof fn lemma_above_bound(s: Seq<(nat, nat)>, c: nat, i: int)
    requires
        0 <= i <= s.len(),
    ensures
        above_from(s, c, i) <= s.len() - i,
    decreases s.len() - i,
{
    if i < s.len() {
        lemma_above_bound(s, c, i + 1);
    }
}

impl Node {
    #[verifier::type_invariant]
    spec fn inv(&self) -> bool {
        forall|i: int| 0 <= i < KEYS_PER_NODE ==> #[trigger] self.keys@[i].0 % 16 <= 3
    }

    /// The node of the given (codepoint, width class) boundaries, each width
    /// class at most 3.
    pub fn from_keys(keys: [(char, usize); KEYS_PER_NODE]) -> (r: Node)
        requires
            forall|i: int| 0 <= i < KEYS_PER_NODE ==> #[trigger] keys@[i].1 <= 3,
        ensures
            r@.len() == KEYS_PER_NODE,
            forall|i: int| 0 <= i < KEYS_PER_NODE ==> #[trigger] r@[i] == (keys@[i].0 as nat, keys@[i].1 as nat),
    {
        let mut compressed_keys = [Key::new('\0', 0); KEYS_PER_NODE];
        let mut i: usize = 0;
        while i < KEYS_PER_NODE
            invariant
                i <= KEYS_PER_NODE,
                forall|j: int| 0 <= j < KEYS_PER_NODE ==> #[trigger] keys@[j].1 <= 3,
                forall|j: int| 0 <= j < KEYS_PER_NODE ==> #[trigger] compressed_keys@[j].0 % 16 <= 3,
                forall|j: int| 0 <= j < i ==> #[trigger] key_view(compressed_keys@[j].0) == (keys@[j].0 as nat, keys@[j].1 as nat),
            decreases KEYS_PER_NODE - i,
        {
            let (codepoint, width) = keys[i];
            compressed_keys[i] = Key::new(codepoint, width);
            i = i + 1;
        }
        Node { keys: compressed_keys }
    }

    /// The number of leading keys whose codepoint is above the needle's.
    fn search(&self, needle: Needle) -> (r: usize)
        requires
            needle.0 % 16 == 4,
        ensures
            r == leading_above(self@, (needle.0 / 16) as nat),
            r <= KEYS_PER_NODE,
    {
        proof {
            use_type_invariant(self);
        }
        let ghost c = (needle.0 / 16) as nat;
        let mut i: usize = 0;
        while i < KEYS_PER_NODE
            invariant
                self.inv(),
                needle.0 % 16 == 4,
                c == needle.0 / 16,
                i <= KEYS_PER_NODE,
                forall|j: int| 0 <= j < i ==> self@[j].0 > c,
            decreases KEYS_PER_NODE - i,
        {
            if self.keys[i].less_than(needle) {
                proof {
                    lemma_above_prefix(self@, c, i as int);
                }
                return i;
            }
            i = i + 1;
        }
        proof {
            lemma_above_prefix(self@, c, KEYS_PER_NODE as int);
        }
        KEYS_PER_NODE
    }

    /// The width class of the range that holds the needle's codepoint.
    fn width(&self, needle: Needle) -> (r: usize)
        requires
            needle.0 % 16 == 4,
        ensures
            r == node_class(self@, (needle.0 / 16) as nat),
            r <= 3,
    {
        proof {
            use_type_invariant(self);
        }
        let ghost c = (needle.0 / 16) as nat;
        let mut i: usize = 0;
        while i < KEYS_PER_NODE - 1
            invariant
                self.inv(),
                needle.0 % 16 == 4,
                c == needle.0 / 16,
                i <= KEYS_PER_NODE - 1,
                forall|j: int| 0 <= j < i ==> self@[j].0 > c,
            decreases KEYS_PER_NODE - i,
        {
            if self.keys[i].less_than(needle) {
                proof {
                    lemma_above_prefix(self@, c, i as int);
                }
                return self.keys[i].width();
            }
            i = i + 1;
        }
        proof {
            lemma_above_prefix(self@, c, i as int);
            lemma_above_bound(self@, c, i as int);
        }
        self.keys[KEYS_PER_NODE - 1].width()
    }
}

/// The layers of a width table: search layer `l` is `layer_span(l)` nodes
/// of `search_nodes` from `offsets[l]` on, and the data layer below them.
pub struct SearchTree {
    offsets: Vec<usize>,
    search_nodes: Vec<Node>,
    data_nodes: Vec<Node>,
}

/// The views of the nodes of `v`.
pub open spec fn views(v: Seq<Node>) -> Seq<Seq<(nat, nat)>> {
    v.map_values(|n: Node| n@)
}

/// Each node holds `KEYS_PER_NODE` keys, with width classes of at most 3.
pub open spec fn nodes_ok(s: Seq<Seq<(nat, nat)>>) -> bool {
    forall|i: int| 0 <= i < s.len() ==> {
        &&& (#[trigger] s[i]).len() == KEYS_PER_NODE
        &&& forall|j: int| 0 <= j < KEYS_PER_NODE ==> (#[trigger] s[i][j]).1 <= 3
    }
}

/// Every node of `v` keeps its invariant; the walk only brings it into
/// view.
fn nodes_hold(v: &Vec<Node>)
    ensures
        nodes_ok(views(v@)),
{
    let mut i: usize = 0;
    while i < v.len()
        invariant
            i <= v@.len(),
            forall|k: int| 0 <= k < i ==> {
                &&& (#[trigger] v@[k])@.len() == KEYS_PER_NODE
                &&& forall|j: int| 0 <= j < KEYS_PER_NODE ==> (#[trigger] v@[k]@[j]).1 <= 3
            },
        decreases v@.len() - i,
    {
        let n = &v[i];
        proof {
            use_type_invariant(n);
            assert forall|j: int| 0 <= j < KEYS_PER_NODE implies (#[trigger] n@[j]).1 <= 3 by {
                assert(n.keys@[j].0 % 16 <= 3);
            }
        }
        i = i + 1;
    }
    assert forall|k: int| 0 <= k < v@.len() implies {
        &&& (#[trigger] views(v@)[k]).len() == KEYS_PER_NODE
        &&& forall|j: int| 0 <= j < KEYS_PER_NODE ==> (#[trigger] views(v@)[k][j]).1 <= 3
    } by {
        assert(views(v@)[k] == v@[k]@);
    }
}

/// Search layer `l` is `layer_span(l)` nodes from `offsets[l]` on, within
/// `n_search` nodes, and the data layer under the last one has at least
/// `layer_span` of its depth nodes.
pub open spec fn tree_shape(offsets: Seq<usize>, n_search: nat, n_data: nat) -> bool {
    &&& forall|l: int| 0 <= l < offsets.len() ==> (#[trigger] offsets[l]) + layer_span(l as nat) <= n_search
    &&& forall|l: nat| l <= offsets.len() ==> #[trigger] layer_span(l) <= n_data
}

/// The node index in the layer below `l` search layers that the descent for
/// `c` reaches.
pub open spec fn descend(offsets: Seq<usize>, nodes: Seq<Seq<(nat, nat)>>, c: nat, l: nat) -> nat
    decreases l,
{
    if l == 0 {
        0
    } else {
        let i = descend(offsets, nodes, c, (l - 1) as nat);
        (i * FANOUT + leading_above(nodes[offsets[l - 1] + i], c)) as nat
    }
}

impl SearchTree {
    pub closed spec fn offsets(&self) -> Seq<usize> {
        self.offsets@
    }

    pub closed spec fn search_layer(&self) -> Seq<Seq<(nat, nat)>> {
        views(self.search_nodes@)
    }

    pub closed spec fn data_layer(&self) -> Seq<Seq<(nat, nat)>> {
        views(self.data_nodes@)
    }

    /// Each layer lies within its node array, and each node holds
    /// `KEYS_PER_NODE` keys with width classes of at most 3.
    pub open spec fn wf(&self) -> bool {
        &&& tree_shape(self.offsets(), self.search_layer().len(), self.data_layer().len())
        &&& nodes_ok(self.search_layer())
        &&& nodes_ok(self.data_layer())
    }

    /// The table of the given layers, or `None` where a layer does not lie
    /// within its node array.
    pub fn new(offsets: Vec<usize>, search_nodes: Vec<Node>, data_nodes: Vec<Node>) -> (r: Option<SearchTree>)
        ensures
            r is Some <==> tree_shape(offsets@, search_nodes@.len(), data_nodes@.len()),
            r matches Some(t) ==> {
                &&& t.wf()
                &&& t.offsets() == offsets@
                &&& t.search_layer() == views(search_nodes@)
                &&& t.data_layer() == views(data_nodes@)
            },
    {
        if data_nodes.len() < 1 {
            assert(!(layer_span(0) <= data_nodes@.len()));
            return None;
        }
        let mut span: usize = 1;
        let mut l: usize = 0;
        while l < offsets.len()
            invariant
                l <= offsets@.len(),
                span == layer_span(l as nat),
                span <= data_nodes@.len(),
                forall|m: int| 0 <= m < l ==> (#[trigger] offsets@[m]) + layer_span(m as nat) <= search_nodes@.len(),
                forall|m: nat| m <= l ==> #[trigger] layer_span(m) <= data_nodes@.len(),
            decreases offsets@.len() - l,
        {
            if search_nodes.len() < span || offsets[l] > search_nodes.len() - span {
                assert(!(offsets@[l as int] + layer_span(l as nat) <= search_nodes@.len()));
                return None;
            }
            if span > data_nodes.len() / FANOUT {
                assert(FANOUT * span > data_nodes@.len());
                assert(!(layer_span((l + 1) as nat) <= data_nodes@.len()));
                return None;
            }
            span = span * FANOUT;
            l = l + 1;
        }
        let ghost (o, sl, dl) = (offsets@, views(search_nodes@), views(data_nodes@));
        nodes_hold(&search_nodes);
        nodes_hold(&data_nodes);
        let t = SearchTree { offsets, search_nodes, data_nodes };
        assert(t.search_layer() == sl);
        assert(t.data_layer() == dl);
        Some(t)
    }

    /// The width class that the table stores for `c`, before the context
    /// resolves an ambiguous one.
    pub open spec fn class_of(&self, c: nat) -> nat {
        node_class(self.data_layer()[descend(self.offsets(), self.search_layer(), c, self.offsets().len()) as int], c)
    }
}

proof fn lemma_descend_bound(offsets: Seq<usize>, nodes: Seq<Seq<(nat, nat)>>, c: nat, l: nat)
    requires
        forall|m: int| 0 <= m < l ==> (#[trigger] offsets[m]) + layer_span(m as nat) <= nodes.len(),
        forall|i: int| 0 <= i < nodes.len() ==> (#[trigger] nodes[i]).len() == KEYS_PER_NODE,
        l <= offsets.len(),
    ensures
        descend(offsets, nodes, c, l) < layer_span(l),
    decreases l,
{
    if l > 0 {
        let p = (l - 1) as nat;
        lemma_descend_bound(offsets, nodes, c, p);
        let i = descend(offsets, nodes, c, p);
        assert(offsets[p as int] + layer_span(p) <= nodes.len());
        let s = leading_above(nodes[offsets[p as int] + i], c);
        lemma_above_bound(nodes[offsets[p as int] + i], c, 0);
        let sp = layer_span(p);
        assert(i * FANOUT + s < FANOUT * sp) by (nonlinear_arith)
            requires
                i < sp,
                s <= 16,
        ;
    }
}

/// A well-formed table stores a width class of at most 3 for every codepoint.
pub proof fn lemma_class_bound(tree: SearchTree, c: nat)
    requires
        tree.wf(),
    ensures
        tree.class_of(c) <= 3,
{
    let (o, sl, dl) = (tree.offsets(), tree.search_layer(), tree.data_layer());
    lemma_descend_bound(o, sl, c, o.len());
    let d = descend(o, sl, c, o.len());
    assert(layer_span(o.len()) <= dl.len());
    let node = dl[d as int];
    assert(node.len() == KEYS_PER_NODE);
    lemma_above_bound(node, c, 0);
    let i = leading_above(node, c);
    if i < KEYS_PER_NODE - 1 {
        assert(node[i as int].1 <= 3);
    } else {
        assert(node[KEYS_PER_NODE - 1].1 <= 3);
    }
}

/// The width class that `tree` stores for `codepoint`, found by descending
/// its search layers to one data node.
pub fn table_width(tree: &SearchTree, codepoint: char) -> (r: usize)
    requires
        tree.wf(),
    ensures
        r == tree.class_of(codepoint as nat),
        r <= 3,
{
    descend_width(tree, Needle::new(codepoint))
}

/// The width class that `tree` stores for the codepoint `codepoint`, which
/// need not be a scalar value.
pub fn codepoint_class(tree: &SearchTree, codepoint: u32) -> (r: usize)
    requires
        tree.wf(),
        codepoint < 0x110000,
    ensures
        r == tree.class_of(codepoint as nat),
        r <= 3,
{
    descend_width(tree, Needle::from_u32(codepoint))
}

fn descend_width(tree: &SearchTree, needle: Needle) -> (r: usize)
    requires
        tree.wf(),
        needle.0 % 16 == 4,
    ensures
        r == tree.class_of((needle.0 / 16) as nat),
        r <= 3,
{
    let ghost c = (needle.0 / 16) as nat;
    assert(tree.search_layer().len() == tree.search_nodes@.len());
    assert(tree.data_layer().len() == tree.data_nodes@.len());
    // use the search nodes to get the offset of the data block
    let mut index: usize = 0;
    let mut l: usize = 0;
    while l < tree.offsets.len()
        invariant
            tree.wf(),
            needle.0 % 16 == 4,
            needle.0 / 16 == c,
            l <= tree.offsets@.len(),
            tree.search_layer().len() == tree.search_nodes@.len(),
            tree.data_layer().len() == tree.data_nodes@.len(),
            index == descend(tree.offsets(), tree.search_layer(), c, l as nat),
            index < layer_span(l as nat),
        decreases tree.offsets@.len() - l,
    {
        let layer = tree.offsets[l];
        assert(tree.offsets()[l as int] + layer_span(l as nat) <= tree.search_layer().len());
        let n_search = tree.search_nodes.len();
        let n_data = tree.data_nodes.len();
        assert(layer + index < n_search);
        let node = &tree.search_nodes[layer + index];
        let s = node.search(needle);
        assert(tree.search_layer()[layer + index] == node@);
        proof {
            let sp = layer_span(l as nat);
            assert(index * FANOUT + s < FANOUT * sp) by (nonlinear_arith)
                requires
                    index < sp,
                    s <= 16,
            ;
            assert(layer_span((l + 1) as nat) <= tree.data_layer().len());
            assert(layer_span((l + 1) as nat) == FANOUT * sp);
        }
        assert(index * FANOUT + s < n_data);
        index = index * FANOUT + s;
        l = l + 1;
    }
    assert(layer_span(l as nat) <= tree.data_layer().len());
    assert(tree.data_layer()[index as int] == tree.data_nodes@[index as int]@);
    // grab that block from the data layer and linearly search through its keys
    tree.data_nodes[index].width(needle)
}

} // verus!
