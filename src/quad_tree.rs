use vstd::prelude::*;
use crate::data::{ElmRect, ElmRectNode, Node, Point, Rect, is_normal, is_region, overlaps, quad, within, point_rect, lemma_quad_within, lemma_overlaps_within, lemma_quad_cover};
use crate::free_list::FreeList;

verus! {

/// Depth below which leaves are never split.
pub const MAX_DEPTH: i32 = 10;

/// Leaf capacity of a new tree.
pub const DEFAULT_ELEMENTS_PER_NODE: i32 = 8;

/// A leaf met during a traversal: its node, depth and region.
#[derive(Clone, Copy, Debug)]
pub struct Leaf {
    pub node_index: i32,
    pub depth: i32,
    pub rect: Rect,
}

/// A region quadtree over rectangles, carrying a payload of type `T` per
/// element. Element ids, node indices and chain entries are slots of free
/// lists; `-1` stands for "none".
pub struct QuadTree<T> {
    pub(crate) elm_rects: FreeList<ElmRect>,
    pub(crate) element_nodes: FreeList<ElmRectNode>,
    pub(crate) nodes: FreeList<Node>,
    pub(crate) data: FreeList<T>,
    pub(crate) root_rect: Rect,
    pub(crate) max_depth: i32,
    pub(crate) elements_per_node: i32,
    pub(crate) query_tmp_buffer: Vec<bool>,
    /// Depth of each live node; the root is at depth 0.
    pub(crate) depth: Ghost<Map<int, int>>,
    /// Region covered by each live node.
    pub(crate) region: Ghost<Map<int, Rect>>,
    /// Branch above each live node but the root.
    pub(crate) parent: Ghost<Map<int, int>>,
    /// Chain entries of each leaf, in chain order.
    pub(crate) chain: Ghost<Map<int, Seq<int>>>,
    /// Leaf whose chain holds each chain entry.
    pub(crate) owner: Ghost<Map<int, int>>,
}

/// `f` is made of groups of four consecutive indices.
pub open spec fn grouped(f: Seq<int>) -> bool {
    &&& f.len() % 4 == 0
    &&& forall|g: int|
        0 <= g && 4 * g < f.len() ==> {
            &&& f[4 * g + 1] == #[trigger] f[4 * g] + 1
            &&& f[4 * g + 2] == f[4 * g] + 2
            &&& f[4 * g + 3] == f[4 * g] + 3
        }
}

/// Putting a group of four consecutive indices in front keeps the grouping.
pub(crate) proof fn lemma_groups_push(f0: Seq<int>, a: int)
    requires
        grouped(f0),
    ensures
        grouped(seq![a, a + 1, a + 2, a + 3] + f0),
{
    let f1 = seq![a, a + 1, a + 2, a + 3] + f0;
    assert forall|g: int| 0 <= g && 4 * g < f1.len() implies {
        &&& f1[4 * g + 1] == #[trigger] f1[4 * g] + 1
        &&& f1[4 * g + 2] == f1[4 * g] + 2
        &&& f1[4 * g + 3] == f1[4 * g] + 3
    } by {
        if g > 0 {
            assert(f1[4 * g] == f0[4 * (g - 1)]);
            assert(f1[4 * g + 1] == f0[4 * (g - 1) + 1]);
            assert(f1[4 * g + 2] == f0[4 * (g - 1) + 2]);
            assert(f1[4 * g + 3] == f0[4 * (g - 1) + 3]);
        }
    }
}

/// How many nodes one descent from depth `d` can visit at most: the node
/// itself and, above the depth limit, four subtrees.
pub open spec fn descent_calls(d: int) -> int
    decreases MAX_DEPTH - d,
{
    if d >= MAX_DEPTH {
        1
    } else {
        1 + 4 * descent_calls(d + 1)
    }
}

pub proof fn lemma_descent_calls_pos(d: int)
    ensures
        descent_calls(d) >= 1,
    decreases MAX_DEPTH - d,
{
    if d < MAX_DEPTH {
        lemma_descent_calls_pos(d + 1);
    }
}

/// A descent from the root visits at most 1 398 101 nodes.
pub proof fn lemma_descent_calls_root()
    ensures
        descent_calls(0) == 1398101,
{
    assert(descent_calls(10) == 1);
    assert(descent_calls(9) == 5);
    assert(descent_calls(8) == 21);
    assert(descent_calls(7) == 85);
    assert(descent_calls(6) == 341);
    assert(descent_calls(5) == 1365);
    assert(descent_calls(4) == 5461);
    assert(descent_calls(3) == 21845);
    assert(descent_calls(2) == 87381);
    assert(descent_calls(1) == 349525);
}

/// `b` ends `a`.
pub open spec fn is_suffix(a: Seq<int>, b: Seq<int>) -> bool {
    b.len() <= a.len() && a.subrange(a.len() - b.len(), a.len() as int) == b
}

pub proof fn lemma_suffix_trans(a: Seq<int>, b: Seq<int>, c: Seq<int>)
    requires
        is_suffix(a, b),
        is_suffix(b, c),
    ensures
        is_suffix(a, c),
{
    assert(a.subrange(a.len() - c.len(), a.len() as int) =~= c) by {
        assert forall|i: int| 0 <= i < c.len() implies a[a.len() - c.len() + i] == c[i] by {
            assert(b[b.len() - c.len() + i] == c[i]);
            assert(a[a.len() - b.len() + (b.len() - c.len() + i)] == b[b.len() - c.len() + i]);
        }
    }
}

/// The part of `a` in front of its suffix `b`.
pub open spec fn prefix_before(a: Seq<int>, b: Seq<int>) -> Seq<int> {
    a.subrange(0, a.len() - b.len())
}

pub proof fn lemma_prefix_concat(a: Seq<int>, b: Seq<int>, c: Seq<int>)
    requires
        is_suffix(a, b),
        is_suffix(b, c),
    ensures
        is_suffix(a, c),
        prefix_before(a, c) == prefix_before(a, b) + prefix_before(b, c),
{
    lemma_suffix_trans(a, b, c);
    let pa = prefix_before(a, b);
    let pb = prefix_before(b, c);
    assert forall|i: int| 0 <= i < pb.len() implies a[pa.len() + i] == pb[i] by {
        assert(a.subrange(a.len() - b.len(), a.len() as int)[i] == b[i]);
    }
    assert(prefix_before(a, c) =~= pa + pb);
}

pub proof fn lemma_contains_concat(a: Seq<int>, b: Seq<int>, x: int)
    requires
        a.contains(x) || b.contains(x),
    ensures
        (a + b).contains(x),
{
    if a.contains(x) {
        let i = choose|i: int| 0 <= i < a.len() && a[i] == x;
        assert((a + b)[i] == x);
    } else {
        let i = choose|i: int| 0 <= i < b.len() && b[i] == x;
        assert((a + b)[a.len() + i] == x);
    }
}

pub proof fn lemma_grouped_concat(a: Seq<int>, b: Seq<int>)
    requires
        grouped(a),
        grouped(b),
    ensures
        grouped(a + b),
{
    let c = a + b;
    assert forall|g: int| 0 <= g && 4 * g < c.len() implies {
        &&& c[4 * g + 1] == #[trigger] c[4 * g] + 1
        &&& c[4 * g + 2] == c[4 * g] + 2
        &&& c[4 * g + 3] == c[4 * g] + 3
    } by {
        if 4 * g >= a.len() {
            let h = g - a.len() / 4;
            assert(4 * h == 4 * g - a.len());
            assert(b[4 * h] == c[4 * g]);
            assert(b[4 * h + 1] == c[4 * g + 1]);
            assert(b[4 * h + 2] == c[4 * g + 2]);
            assert(b[4 * h + 3] == c[4 * g + 3]);
        }
    }
}

pub(crate) open spec fn empty_node() -> Node {
    Node { first_child: -1i32, count: 0i32 }
}

/// Some entry of `c` refers to element `e`.
pub(crate) open spec fn chain_has(c: Seq<int>, entries: Map<int, ElmRectNode>, e: int) -> bool {
    exists|k: int| 0 <= k < c.len() && #[trigger] entries[c[k]].elm_id == e
}

impl<T> QuadTree<T> {
    // ----- the model -----

    /// The live elements: payload and rectangle of each element id.
    pub closed spec fn elements(&self) -> Map<int, (T, Rect)> {
        Map::new(
            |e: int| self.elm_rects@.contains_key(e),
            |e: int| (self.data@[self.elm_rects@[e].data_id as int], self.elm_rects@[e].rect),
        )
    }

    /// The live nodes.
    pub closed spec fn node_ids(&self) -> Set<int> {
        self.nodes@.dom()
    }

    pub closed spec fn is_leaf(&self, i: int) -> bool {
        self.nodes@.contains_key(i) && self.nodes@[i].count >= 0
    }

    pub closed spec fn is_branch(&self, i: int) -> bool {
        self.nodes@.contains_key(i) && self.nodes@[i].count < 0
    }

    /// Index of the first of a branch's four children.
    pub closed spec fn first_child(&self, i: int) -> int {
        self.nodes@[i].first_child as int
    }

    /// The `count` stored in a node.
    pub closed spec fn stored_count(&self, i: int) -> int {
        self.nodes@[i].count as int
    }

    pub closed spec fn region_of(&self, i: int) -> Rect {
        self.region@[i]
    }

    pub closed spec fn depth_of(&self, i: int) -> int {
        self.depth@[i]
    }

    /// The element ids in a leaf's chain, in chain order.
    pub closed spec fn leaf_elements(&self, i: int) -> Seq<int> {
        self.chain@[i].map_values(|x: int| self.element_nodes@[x].elm_id as int)
    }

    pub closed spec fn root(&self) -> Rect {
        self.root_rect
    }

    pub closed spec fn capacity(&self) -> int {
        self.elements_per_node as int
    }

    pub closed spec fn node_total(&self) -> int {
        self.nodes.slots() - self.nodes.free_chain().len()
    }

    // ----- well-formedness -----

    pub(crate) open spec fn live(&self, i: int) -> bool {
        self.nodes@.contains_key(i)
    }

    pub(crate) open spec fn fc(&self, i: int) -> int {
        self.nodes@[i].first_child as int
    }

    pub(crate) open spec fn entry(&self, x: int) -> ElmRectNode {
        self.element_nodes@[x]
    }

    pub(crate) open spec fn erect(&self, e: int) -> Rect {
        self.elm_rects@[e].rect
    }

    /// Leaf `l` has a chain entry for element `e`.
    pub(crate) open spec fn leaf_has(&self, l: int, e: int) -> bool {
        chain_has(self.chain@[l], self.element_nodes@, e)
    }

    pub(crate) open spec fn child_ok(&self, i: int, k: int) -> bool {
        let c = self.fc(i) + k;
        &&& self.live(c)
        &&& self.parent@.contains_key(c)
        &&& self.parent@[c] == i
        &&& self.depth@[c] == self.depth@[i] + 1
        &&& self.region@[c] == quad(self.region@[i], k)
    }

    pub(crate) open spec fn wf_branch(&self, i: int) -> bool {
        &&& self.depth@[i] < self.max_depth
        &&& 0 <= self.fc(i)
        &&& self.fc(i) + 4 <= i32::MAX
        &&& self.child_ok(i, 0)
        &&& self.child_ok(i, 1)
        &&& self.child_ok(i, 2)
        &&& self.child_ok(i, 3)
    }

    pub(crate) open spec fn chain_link(&self, i: int, k: int) -> bool {
        let c = self.chain@[i];
        let x = c[k];
        &&& self.element_nodes@.contains_key(x)
        &&& self.owner@[x] == i
        &&& self.entry(x).next == (if k + 1 < c.len() { c[k + 1] } else { -1 })
        &&& self.elm_rects@.contains_key(self.entry(x).elm_id as int)
    }

    #[verifier::opaque]
    pub(crate) open spec fn wf_leaf(&self, i: int) -> bool {
        let c = self.chain@[i];
        &&& self.chain@.contains_key(i)
        &&& c.len() == self.nodes@[i].count
        &&& self.nodes@[i].first_child == (if c.len() == 0 { -1 } else { c[0] })
        &&& c.no_duplicates()
        &&& forall|k: int| 0 <= k < c.len() ==> #[trigger] self.chain_link(i, k)
        &&& forall|k1: int, k2: int|
            0 <= k1 < c.len() && 0 <= k2 < c.len() && k1 != k2 ==> #[trigger] self.entry(c[k1]).elm_id
                != #[trigger] self.entry(c[k2]).elm_id
    }

    pub(crate) open spec fn wf_node(&self, i: int) -> bool {
        &&& self.depth@.contains_key(i)
        &&& self.region@.contains_key(i)
        &&& 0 <= self.depth@[i] <= self.max_depth
        &&& is_region(self.region@[i])
        &&& self.nodes@[i].count >= -1
        &&& (i == 0 ==> self.depth@[i] == 0 && self.region@[i] == self.root_rect)
        &&& (i != 0 ==> {
            &&& self.parent@.contains_key(i)
            &&& self.is_branch(self.parent@[i])
            &&& self.fc(self.parent@[i]) <= i < self.fc(self.parent@[i]) + 4
        })
        &&& (self.nodes@[i].count < 0 ==> self.wf_branch(i))
        &&& (self.nodes@[i].count >= 0 ==> self.wf_leaf(i))
    }

    #[verifier::opaque]
    pub(crate) open spec fn wf_free_nodes(&self) -> bool {
        grouped(self.nodes.free_chain())
    }

    pub(crate) open spec fn wf_structure(&self) -> bool {
        &&& self.elm_rects.wf()
        &&& self.element_nodes.wf()
        &&& self.nodes.wf()
        &&& self.data.wf()
        &&& self.max_depth == MAX_DEPTH
        &&& self.elements_per_node >= 1
        &&& is_region(self.root_rect)
        &&& forall|i: int| 0 <= i < self.query_tmp_buffer@.len() ==> !self.query_tmp_buffer@[i]
        &&& self.query_tmp_buffer@.len() <= i32::MAX
        &&& self.live(0)
        &&& self.nodes_ok()
        &&& self.wf_free_nodes()
        &&& self.elems_ok()
    }

    #[verifier::opaque]
    pub(crate) open spec fn nodes_ok(&self) -> bool {
        forall|i: int| #[trigger] self.live(i) ==> self.wf_node(i)
    }

    /// Each element's payload is live, payloads are not shared, and every
    /// live payload belongs to an element.
    #[verifier::opaque]
    pub(crate) open spec fn elems_ok(&self) -> bool {
        &&& forall|e: int| #[trigger] self.elm_rects@.contains_key(e) ==> self.data@.contains_key(self.elm_rects@[e].data_id as int)
            && is_normal(self.elm_rects@[e].rect)
        &&& forall|e1: int, e2: int|
            #[trigger] self.elm_rects@.contains_key(e1) && #[trigger] self.elm_rects@.contains_key(e2) && e1 != e2
                ==> self.elm_rects@[e1].data_id != self.elm_rects@[e2].data_id
        &&& forall|d: int| #[trigger] self.data@.contains_key(d) ==> exists|e: int| #[trigger] self.elm_rects@.contains_key(e) && self.elm_rects@[e].data_id == d
    }

    pub(crate) proof fn lemma_node(&self, i: int)
        requires
            self.wf_structure(),
            self.live(i),
        ensures
            self.wf_node(i),
    {
        reveal(QuadTree::nodes_ok);
    }

    /// A live element is in exactly the leaves whose region it overlaps.
    pub(crate) open spec fn placed(&self, e: int) -> bool {
        forall|l: int| #[trigger] self.is_leaf(l) ==> (self.leaf_has(l, e) <==> overlaps(self.region@[l], self.erect(e)))
    }

    /// Every live element but `e` is placed.
    #[verifier::opaque]
    pub(crate) open spec fn placed_except(&self, e: int) -> bool {
        forall|e2: int| #[trigger] self.elm_rects@.contains_key(e2) && e2 != e ==> self.placed(e2)
    }

    /// Element `e` is in no leaf that it does not overlap.
    pub(crate) open spec fn half_placed(&self, e: int) -> bool {
        forall|l: int| #[trigger] self.is_leaf(l) && self.leaf_has(l, e) ==> overlaps(self.region@[l], self.erect(e))
    }

    #[verifier::opaque]
    pub(crate) open spec fn all_placed(&self) -> bool {
        forall|e: int| #[trigger] self.elm_rects@.contains_key(e) ==> self.placed(e)
    }

    pub closed spec fn wf(&self) -> bool {
        &&& self.wf_structure()
        &&& self.all_placed()
    }

    // ----- ancestry -----

    /// The ancestor `n` levels above node `i`.
    pub(crate) open spec fn anc(&self, i: int, n: nat) -> int
        decreases n,
    {
        if n == 0 {
            i
        } else {
            self.parent@[self.anc(i, (n - 1) as nat)]
        }
    }

    /// Node `i` lies in the subtree of node `n`.
    pub(crate) open spec fn under(&self, i: int, n: int) -> bool {
        &&& self.live(i)
        &&& self.depth@[i] >= self.depth@[n]
        &&& self.anc(i, (self.depth@[i] - self.depth@[n]) as nat) == n
    }

    pub(crate) proof fn lemma_child(&self, p: int, x: int) -> (k: int)
        requires
            self.wf_structure(),
            self.live(x),
            x != 0,
            self.parent@[x] == p,
        ensures
            0 <= k < 4,
            x == self.fc(p) + k,
            self.is_branch(p),
            self.wf_branch(p),
            self.child_ok(p, k),
            within(self.region@[x], self.region@[p]),
            self.depth@[x] == self.depth@[p] + 1,
    {
        self.lemma_node(x);
        self.lemma_node(p);
        let k = x - self.fc(p);
        lemma_quad_within(self.region@[p], k);
        k
    }

    pub(crate) proof fn lemma_anc(&self, i: int, k: nat)
        requires
            self.wf_structure(),
            self.live(i),
            k <= self.depth@[i],
        ensures
            self.live(self.anc(i, k)),
            self.depth@[self.anc(i, k)] == self.depth@[i] - k,
            within(self.region@[i], self.region@[self.anc(i, k)]),
        decreases k,
    {
        self.lemma_node(i);
        if k > 0 {
            self.lemma_anc(i, (k - 1) as nat);
            let x = self.anc(i, (k - 1) as nat);
            self.lemma_node(x);
            assert(x != 0);
            self.lemma_child(self.parent@[x], x);
        }
    }

    /// Every live node lies under the root.
    pub(crate) proof fn lemma_under_root(&self, i: int)
        requires
            self.wf_structure(),
            self.live(i),
        ensures
            self.under(i, 0),
            within(self.region@[i], self.root_rect),
    {
        self.lemma_node(i);
        self.lemma_node(0);
        self.lemma_anc(i, self.depth@[i] as nat);
        let r = self.anc(i, self.depth@[i] as nat);
        self.lemma_node(r);
        if r != 0 {
            self.lemma_child(self.parent@[r], r);
            self.lemma_node(self.parent@[r]);
        }
        assert(r == 0);
    }

    /// A node strictly under `n` lies under one of `n`'s children.
    pub(crate) proof fn lemma_under_child(&self, l: int, n: int) -> (k: int)
        requires
            self.wf_structure(),
            self.live(n),
            self.under(l, n),
            l != n,
        ensures
            0 <= k < 4,
            self.is_branch(n),
            self.wf_branch(n),
            self.child_ok(n, k),
            self.under(l, self.fc(n) + k),
            within(self.region@[l], self.region@[self.fc(n) + k]),
    {
        self.lemma_node(n);
        self.lemma_node(l);
        let m = (self.depth@[l] - self.depth@[n]) as nat;
        assert(m > 0);
        self.lemma_anc(l, (m - 1) as nat);
        let c = self.anc(l, (m - 1) as nat);
        self.lemma_node(c);
        self.lemma_node(n);
        self.lemma_anc(l, m);
        assert(c != 0);
        let k = self.lemma_child(n, c);
        k
    }

    /// A node under a child of `n` is under `n`.
    pub(crate) proof fn lemma_under_parent(&self, l: int, n: int, k: int)
        requires
            self.wf_structure(),
            self.is_branch(n),
            0 <= k < 4,
            self.under(l, self.fc(n) + k),
        ensures
            self.under(l, n),
            within(self.region@[l], self.region@[self.fc(n) + k]),
    {
        self.lemma_node(n);
        let c = self.fc(n) + k;
        assert(self.child_ok(n, k));
        let m = (self.depth@[l] - self.depth@[c]) as nat;
        assert(self.anc(l, m + 1) == self.parent@[self.anc(l, m)]);
        self.lemma_anc(l, m);
    }

    /// Nodes live in `a` stay live here with the same ghost data.
    pub(crate) open spec fn keeps(&self, a: Self) -> bool {
        forall|x: int| #[trigger] a.live(x) ==> {
            &&& self.live(x)
            &&& self.depth@[x] == a.depth@[x]
            &&& self.region@[x] == a.region@[x]
            &&& self.parent@[x] == a.parent@[x]
        }
    }

    /// The child of `n` on the way down to `i`.
    pub(crate) open spec fn kid_node(&self, i: int, n: int) -> int {
        self.anc(i, (self.depth@[i] - self.depth@[n] - 1) as nat)
    }

    proof fn lemma_anc_stable(&self, a: Self, i: int, k: nat)
        requires
            a.wf_structure(),
            a.live(i),
            k <= a.depth@[i],
            self.keeps(a),
        ensures
            self.anc(i, k) == a.anc(i, k),
        decreases k,
    {
        if k > 0 {
            self.lemma_anc_stable(a, i, (k - 1) as nat);
            a.lemma_anc(i, (k - 1) as nat);
            assert(a.live(a.anc(i, (k - 1) as nat)));
        }
    }

    /// Ancestry among nodes of `a` reads the same in a state that keeps them.
    proof fn lemma_under_stable(&self, a: Self, i: int, m: int)
        requires
            a.wf_structure(),
            a.live(i),
            a.live(m),
            self.keeps(a),
        ensures
            self.under(i, m) == a.under(i, m),
            a.depth@[i] > a.depth@[m] ==> self.kid_node(i, m) == a.kid_node(i, m),
    {
        a.lemma_node(i);
        a.lemma_node(m);
        if a.depth@[i] >= a.depth@[m] {
            self.lemma_anc_stable(a, i, (a.depth@[i] - a.depth@[m]) as nat);
        }
        if a.depth@[i] > a.depth@[m] {
            self.lemma_anc_stable(a, i, (a.depth@[i] - a.depth@[m] - 1) as nat);
        }
    }

    /// A node strictly under `n` is under exactly one child of `n`: its
    /// `kid_node`.
    proof fn lemma_kid(&self, l: int, n: int)
        requires
            self.wf_structure(),
            self.live(n),
            self.under(l, n),
            l != n,
        ensures
            self.is_branch(n),
            self.fc(n) <= self.kid_node(l, n) < self.fc(n) + 4,
            self.under(l, self.kid_node(l, n)),
            self.parent@[self.kid_node(l, n)] == n,
            self.depth@[self.kid_node(l, n)] == self.depth@[n] + 1,
            self.live(self.kid_node(l, n)),
            within(self.region@[l], self.region@[self.kid_node(l, n)]),
            self.depth@[l] > self.depth@[n],
            forall|c: int| #[trigger] self.under(l, c) && self.live(c) && self.depth@[c] == self.depth@[n] + 1 ==> c == self.kid_node(l, n),
    {
        let k = self.lemma_under_child(l, n);
        self.lemma_node(n);
        self.lemma_node(l);
        assert(self.child_ok(n, k));
        let m = (self.depth@[l] - self.depth@[n]) as nat;
        assert(self.kid_node(l, n) == self.anc(l, (m - 1) as nat));
    }

    /// A node under a child of branch `n` is strictly under `n`, with that
    /// child as its `kid_node`.
    proof fn lemma_kid_of_child(&self, l: int, n: int, k: int)
        requires
            self.wf_structure(),
            self.is_branch(n),
            0 <= k < 4,
            self.under(l, self.fc(n) + k),
        ensures
            self.under(l, n),
            l != n,
            self.kid_node(l, n) == self.fc(n) + k,
            within(self.region@[l], self.region@[self.fc(n) + k]),
    {
        self.lemma_under_parent(l, n, k);
        self.lemma_node(n);
        assert(self.child_ok(n, k));
    }

    /// A leaf holds at most as many entries as there are element slots.
    pub(crate) proof fn lemma_count_le_elements(&self, l: int)
        requires
            self.wf_structure(),
            self.is_leaf(l),
        ensures
            self.nodes@[l].count <= self.elm_rects.slots(),
    {
        self.lemma_node(l);
        reveal(QuadTree::wf_leaf);
        let c = self.chain@[l];
        let ids = c.map_values(|x: int| self.element_nodes@[x].elm_id as int);
        assert forall|k: int| 0 <= k < ids.len() implies self.elm_rects@.contains_key(#[trigger] ids[k]) by {
            assert(self.chain_link(l, k));
        }
        assert(ids.no_duplicates()) by {
            assert forall|a: int, b: int| 0 <= a < b < ids.len() implies ids[a] != ids[b] by {
                assert(self.entry(c[a]).elm_id != self.entry(c[b]).elm_id);
            }
        }
        self.elm_rects.lemma_live_seq_len(ids);
    }

    // ----- traversal -----

    pub(crate) open spec fn leaf_found(&self, lf: Leaf, n: int, q: Rect) -> bool {
        let i = lf.node_index as int;
        &&& self.is_leaf(i)
        &&& self.under(i, n)
        &&& lf.rect == self.region@[i]
        &&& lf.depth == self.depth@[i]
        &&& (i == n || overlaps(self.region@[i], q))
    }

    pub(crate) open spec fn leaves_complete(&self, s: Seq<Leaf>, n: int, q: Rect) -> bool {
        forall|l: int|
            #[trigger] self.is_leaf(l) && self.under(l, n) && overlaps(self.region@[l], q) ==> exists|j: int|
                0 <= j < s.len() && (#[trigger] s[j]).node_index == l
    }

    /// Appends to `res` the leaves under `node_index` that a traversal toward
    /// `search_rect` reaches: the node itself when it is a leaf, and below a
    /// branch every leaf reached through quadrants that overlap `search_rect`.
    fn find_leaves_rec(&self, node_index: i32, node_rect: Rect, search_rect: Rect, depth: i32, res: &mut Vec<Leaf>)
        requires
            self.wf_structure(),
            self.live(node_index as int),
            self.region@[node_index as int] == node_rect,
            self.depth@[node_index as int] == depth,
        ensures
            final(res)@.len() >= old(res)@.len(),
            final(res)@.subrange(0, old(res)@.len() as int) == old(res)@,
            forall|j: int| old(res)@.len() <= j < final(res)@.len() ==> self.leaf_found(#[trigger] final(res)@[j], node_index as int, search_rect),
            self.leaves_complete(final(res)@.subrange(old(res)@.len() as int, final(res)@.len() as int), node_index as int, search_rect),
            self.is_leaf(node_index as int) ==> final(res)@.len() == old(res)@.len() + 1 && final(res)@[old(res)@.len() as int].node_index == node_index,
            forall|j1: int, j2: int|
                old(res)@.len() <= j1 < j2 < final(res)@.len() ==> (#[trigger] final(res)@[j1]).node_index != (#[trigger] final(res)@[j2]).node_index,
        decreases self.max_depth - depth,
    {
        let ghost n = node_index as int;
        let ghost res0 = res@;
        proof {
            self.lemma_node(n);
            self.lemma_anc(n, 0);
        }
        let node = *self.nodes.get(node_index);
        if !node.is_branch() {
            res.push(Leaf { node_index, depth, rect: node_rect });
            proof {
                assert(res@.subrange(0, res0.len() as int) =~= res0);
                let s = res@.subrange(res0.len() as int, res@.len() as int);
                assert forall|l: int| #[trigger] self.is_leaf(l) && self.under(l, n) && overlaps(self.region@[l], search_rect) implies exists|j: int|
                    0 <= j < s.len() && (#[trigger] s[j]).node_index == l by {
                    if l != n {
                        self.lemma_under_child(l, n);
                    }
                    assert(s[0].node_index == l);
                }
            }
        } else {
            let locations = node_rect.location_quads();
            let mut i: i32 = 0;
            while i < 4
                invariant
                    self.wf_structure(),
                    self.is_branch(n),
                    self.wf_branch(n),
                    node == self.nodes@[n],
                    0 <= i <= 4,
                    forall|k: int| 0 <= k < 4 ==> locations@[k] == #[trigger] quad(node_rect, k),
                    self.region@[n] == node_rect,
                    self.depth@[n] == depth,
                    res@.len() >= res0.len(),
                    res@.subrange(0, res0.len() as int) == res0,
                    forall|j: int| res0.len() <= j < res@.len() ==> self.leaf_found(#[trigger] res@[j], n, search_rect),
                    forall|l: int, k: int|
                        0 <= k < i && #[trigger] self.is_leaf(l) && #[trigger] self.under(l, self.fc(n) + k) && overlaps(self.region@[l], search_rect)
                            ==> exists|j: int| res0.len() <= j < res@.len() && (#[trigger] res@[j]).node_index == l,
                forall|j: int| res0.len() <= j < res@.len() ==> self.kid_node((#[trigger] res@[j]).node_index as int, n) < self.fc(n) + i,
                forall|j1: int, j2: int|
                    res0.len() <= j1 < j2 < res@.len() ==> (#[trigger] res@[j1]).node_index != (#[trigger] res@[j2]).node_index,
                decreases 4 - i,
            {
                let ghost before = res@;
                if locations[i as usize].intersect(search_rect) {
                    let child = node.first_child + i;
                    proof {
                        assert(self.child_ok(n, i as int));
                    }
                    self.find_leaves_rec(child, locations[i as usize], search_rect, depth + 1, res);
                    proof {
                        assert forall|j: int| res0.len() <= j < res@.len() implies self.leaf_found(#[trigger] res@[j], n, search_rect)
                            && self.kid_node(res@[j].node_index as int, n) < self.fc(n) + i + 1 by {
                            if j < before.len() {
                                assert(res@[j] == res@.subrange(0, before.len() as int)[j]);
                            } else {
                                self.lemma_under_parent(res@[j].node_index as int, n, i as int);
                                self.lemma_kid_of_child(res@[j].node_index as int, n, i as int);
                            }
                        }
                        assert forall|j1: int, j2: int|
                            res0.len() <= j1 < j2 < res@.len() implies (#[trigger] res@[j1]).node_index != (#[trigger] res@[j2]).node_index by {
                            if j2 < before.len() {
                                assert(res@[j1] == res@.subrange(0, before.len() as int)[j1]);
                                assert(res@[j2] == res@.subrange(0, before.len() as int)[j2]);
                            } else if j1 < before.len() {
                                assert(res@[j1] == res@.subrange(0, before.len() as int)[j1]);
                                self.lemma_kid_of_child(res@[j2].node_index as int, n, i as int);
                            }
                        }
                        assert(res@.subrange(0, res0.len() as int) =~= res0) by {
                            assert forall|j: int| 0 <= j < res0.len() implies res@[j] == res0[j] by {
                                assert(res@[j] == res@.subrange(0, before.len() as int)[j]);
                            }
                        }
                        assert forall|l: int, k: int|
                            0 <= k < i + 1 && #[trigger] self.is_leaf(l) && #[trigger] self.under(l, self.fc(n) + k) && overlaps(self.region@[l], search_rect)
                                implies exists|j: int| res0.len() <= j < res@.len() && (#[trigger] res@[j]).node_index == l by {
                            if k < i {
                                let j = choose|j: int| res0.len() <= j < before.len() && (#[trigger] before[j]).node_index == l;
                                assert(res@[j] == res@.subrange(0, before.len() as int)[j]);
                            } else {
                                let s = res@.subrange(before.len() as int, res@.len() as int);
                                let j = choose|j: int| 0 <= j < s.len() && (#[trigger] s[j]).node_index == l;
                                assert(res@[j + before.len()] == s[j]);
                            }
                        }
                    }
                } else {
                    proof {
                        assert forall|l: int, k: int|
                            0 <= k < i + 1 && #[trigger] self.is_leaf(l) && #[trigger] self.under(l, self.fc(n) + k) && overlaps(self.region@[l], search_rect)
                                implies exists|j: int| res0.len() <= j < res@.len() && (#[trigger] res@[j]).node_index == l by {
                            if k == i {
                                self.lemma_under_parent(l, n, k);
                                assert(self.child_ok(n, k));
                                lemma_overlaps_within(self.region@[l], self.region@[self.fc(n) + k], search_rect);
                            }
                        }
                    }
                }
                i = i + 1;
            }
            proof {
                let s = res@.subrange(res0.len() as int, res@.len() as int);
                assert forall|l: int| #[trigger] self.is_leaf(l) && self.under(l, n) && overlaps(self.region@[l], search_rect) implies exists|j: int|
                    0 <= j < s.len() && (#[trigger] s[j]).node_index == l by {
                    assert(l != n);
                    let k = self.lemma_under_child(l, n);
                    assert(self.under(l, self.fc(n) + k));
                    let j = choose|j: int| res0.len() <= j < res@.len() && (#[trigger] res@[j]).node_index == l;
                    assert(s[j - res0.len()] == res@[j]);
                }
            }
        }
    }

    pub(crate) fn find_leaves(&self, node_index: i32, node_rect: Rect, search_rect: Rect, depth: i32) -> (res: Vec<Leaf>)
        requires
            self.wf_structure(),
            self.live(node_index as int),
            self.region@[node_index as int] == node_rect,
            self.depth@[node_index as int] == depth,
        ensures
            forall|j: int| 0 <= j < res@.len() ==> self.leaf_found(#[trigger] res@[j], node_index as int, search_rect),
            self.leaves_complete(res@, node_index as int, search_rect),
            self.is_leaf(node_index as int) ==> res@.len() == 1 && res@[0].node_index == node_index,
            forall|j1: int, j2: int| 0 <= j1 < j2 < res@.len() ==> (#[trigger] res@[j1]).node_index != (#[trigger] res@[j2]).node_index,
    {
        let mut res: Vec<Leaf> = Vec::new();
        self.find_leaves_rec(node_index, node_rect, search_rect, depth, &mut res);
        proof {
            assert(res@.subrange(0, res@.len() as int) =~= res@);
        }
        res
    }

    pub(crate) open spec fn child_same(&self, before: Self, i: int, k: int) -> bool {
        let c = before.fc(i) + k;
        &&& self.live(c)
        &&& self.parent@.contains_key(c)
        &&& self.parent@[c] == before.parent@[c]
        &&& self.depth@[c] == before.depth@[c]
        &&& self.region@[c] == before.region@[c]
    }

    /// The four children of branch `i` keep their ghost data.
    pub(crate) open spec fn children_same(&self, before: Self, i: int) -> bool {
        &&& self.child_same(before, i, 0)
        &&& self.child_same(before, i, 1)
        &&& self.child_same(before, i, 2)
        &&& self.child_same(before, i, 3)
    }

    /// Entry `x` is live, unchanged since `before`, and owned by `n`.
    pub(crate) open spec fn kept_entry(&self, before: Self, x: int, n: int) -> bool {
        &&& self.element_nodes@.contains_key(x)
        &&& self.entry(x) == before.entry(x)
        &&& self.owner@[x] == n
    }

    /// The chain of leaf `i` is the same in both states, entry for entry.
    pub(crate) open spec fn same_chain(&self, before: Self, i: int) -> bool {
        let c = before.chain@[i];
        &&& self.chain@.contains_key(i)
        &&& self.chain@[i] == c
        &&& forall|k: int|
            0 <= k < c.len() ==> {
                &&& self.element_nodes@.contains_key(#[trigger] c[k])
                &&& self.entry(c[k]) == before.entry(c[k])
                &&& self.owner@[c[k]] == before.owner@[c[k]]
                &&& self.elm_rects@.contains_key(before.entry(c[k]).elm_id as int)
            }
    }

    /// A leaf whose chain and entries are unchanged stays well formed and
    /// holds the same elements.
    pub(crate) proof fn lemma_leaf_frame(&self, before: Self, i: int)
        requires
            before.wf_structure(),
            before.is_leaf(i),
            self.nodes@.contains_key(i),
            self.nodes@[i] == before.nodes@[i],
            self.same_chain(before, i),
        ensures
            self.wf_leaf(i),
            forall|e: int| #[trigger] self.leaf_has(i, e) == before.leaf_has(i, e),
    {
        reveal(QuadTree::wf_leaf);
        before.lemma_node(i);
        let c = before.chain@[i];
        assert forall|k: int| 0 <= k < c.len() implies #[trigger] self.chain_link(i, k) by {
            assert(before.chain_link(i, k));
        }
        assert forall|k1: int, k2: int|
            0 <= k1 < c.len() && 0 <= k2 < c.len() && k1 != k2 implies #[trigger] self.entry(c[k1]).elm_id
                != #[trigger] self.entry(c[k2]).elm_id by {
            assert(before.entry(c[k1]).elm_id != before.entry(c[k2]).elm_id);
        }
        assert forall|e: int| #[trigger] self.leaf_has(i, e) == before.leaf_has(i, e) by {
            if self.leaf_has(i, e) {
                let k = choose|k: int| 0 <= k < c.len() && #[trigger] self.entry(c[k]).elm_id == e;
                assert(before.entry(c[k]).elm_id == e);
            }
            if before.leaf_has(i, e) {
                let k = choose|k: int| 0 <= k < c.len() && #[trigger] before.entry(c[k]).elm_id == e;
                assert(self.entry(c[k]).elm_id == e);
            }
        }
    }

    /// A node whose own fields, ghost data, parent and children are unchanged
    /// stays well formed.
    pub(crate) proof fn lemma_node_frame(&self, before: Self, i: int)
        requires
            before.wf_structure(),
            before.live(i),
            self.live(i),
            self.max_depth == before.max_depth,
            self.root_rect == before.root_rect,
            self.nodes@[i] == before.nodes@[i],
            self.depth@.contains_key(i),
            self.region@.contains_key(i),
            self.depth@[i] == before.depth@[i],
            self.region@[i] == before.region@[i],
            i != 0 ==> {
                let p = before.parent@[i];
                &&& self.parent@.contains_key(i)
                &&& self.parent@[i] == p
                &&& self.live(p)
                &&& self.nodes@[p] == before.nodes@[p]
            },
            before.is_branch(i) ==> self.children_same(before, i),
            before.is_leaf(i) ==> self.same_chain(before, i),
        ensures
            self.wf_node(i),
            before.is_leaf(i) ==> forall|e: int| #[trigger] self.leaf_has(i, e) == before.leaf_has(i, e),
    {
        before.lemma_node(i);
        if i != 0 {
            before.lemma_node(before.parent@[i]);
        }
        if before.is_branch(i) {
            assert(before.child_ok(i, 0));
            assert(before.child_ok(i, 1));
            assert(before.child_ok(i, 2));
            assert(before.child_ok(i, 3));
            assert(self.child_ok(i, 0));
            assert(self.child_ok(i, 1));
            assert(self.child_ok(i, 2));
            assert(self.child_ok(i, 3));
        } else {
            self.lemma_leaf_frame(before, i);
        }
    }

    /// `self` is `before` with entry `j` of leaf `li`'s chain unlinked and freed.
    pub(crate) open spec fn unlink_step(&self, before: Self, li: int, j: int) -> bool {
        &&& 0 <= j < before.chain@[li].len()
        &&& self.nodes.wf()
        &&& self.element_nodes.wf()
        &&& self.elm_rects == before.elm_rects
        &&& self.data == before.data
        &&& self.root_rect == before.root_rect
        &&& self.max_depth == before.max_depth
        &&& self.elements_per_node == before.elements_per_node
        &&& self.query_tmp_buffer == before.query_tmp_buffer
        &&& self.depth == before.depth
        &&& self.region == before.region
        &&& self.parent == before.parent
        &&& self.owner == before.owner
        &&& self.nodes.free_chain() == before.nodes.free_chain()
        &&& self.nodes@ == before.nodes@.insert(li, Node {
            first_child: if j == 0 { before.entry(before.chain@[li][j]).next } else { before.nodes@[li].first_child },
            count: (before.nodes@[li].count - 1) as i32,
        })
        &&& self.element_nodes@ == (if j == 0 { before.element_nodes@ } else {
            before.element_nodes@.insert(before.chain@[li][j - 1], ElmRectNode {
                next: before.entry(before.chain@[li][j]).next,
                elm_id: before.entry(before.chain@[li][j - 1]).elm_id,
            })
        }).remove(before.chain@[li][j])
        &&& self.chain@ == before.chain@.insert(li, before.chain@[li].remove(j))
    }

    proof fn lemma_chain_untouched(&self, before: Self, li: int, j: int, l: int)
        requires
            before.wf_structure(),
            before.is_leaf(li),
            self.unlink_step(before, li, j),
            before.is_leaf(l),
            l != li,
        ensures
            self.same_chain(before, l),
    {
        reveal(QuadTree::wf_leaf);
        before.lemma_node(li);
        before.lemma_node(l);
        let c = before.chain@[li];
        let cl = before.chain@[l];
        assert(before.chain_link(li, j));
        if j > 0 {
            assert(before.chain_link(li, j - 1));
        }
        assert forall|k: int| 0 <= k < cl.len() implies {
            &&& self.element_nodes@.contains_key(#[trigger] cl[k])
            &&& self.entry(cl[k]) == before.entry(cl[k])
            &&& self.owner@[cl[k]] == before.owner@[cl[k]]
            &&& self.elm_rects@.contains_key(before.entry(cl[k]).elm_id as int)
        } by {
            assert(before.chain_link(l, k));
        }
    }

    /// The leaf that lost an entry stays well formed and holds the same
    /// elements but the removed one.
    proof fn lemma_unlinked_leaf(&self, before: Self, li: int, j: int, element_id: int)
        requires
            before.wf_structure(),
            before.is_leaf(li),
            before.entry(before.chain@[li][j]).elm_id == element_id,
            self.unlink_step(before, li, j),
        ensures
            self.wf_leaf(li),
            before.nodes@[li].count >= 1,
            !self.leaf_has(li, element_id),
            forall|e: int| e != element_id ==> #[trigger] self.leaf_has(li, e) == before.leaf_has(li, e),
    {
        reveal(QuadTree::wf_leaf);
        before.lemma_node(li);
        let c = before.chain@[li];
        let c2 = c.remove(j);
        let x = c[j];
        assert(self.chain@[li] == c2);
        assert(before.chain_link(li, j));
        if j > 0 {
            assert(before.chain_link(li, j - 1));
        }
        assert forall|k: int| 0 <= k < c2.len() implies #[trigger] self.chain_link(li, k) by {
            let ok = if k < j { k } else { k + 1 };
            assert(before.chain_link(li, ok));
            assert(c2[k] == c[ok]);
            if k + 1 < j {
                assert(before.chain_link(li, k + 1));
            }
        }
        assert forall|k: int| 0 <= k < c2.len() implies #[trigger] self.entry(c2[k]).elm_id == before.entry(c[if k < j { k } else { k + 1 }]).elm_id by {
            let ok = if k < j { k } else { k + 1 };
            assert(before.chain_link(li, ok));
        }
        assert forall|k1: int, k2: int|
            0 <= k1 < c2.len() && 0 <= k2 < c2.len() && k1 != k2 implies #[trigger] self.entry(c2[k1]).elm_id
                != #[trigger] self.entry(c2[k2]).elm_id by {
            let o1 = if k1 < j { k1 } else { k1 + 1 };
            let o2 = if k2 < j { k2 } else { k2 + 1 };
            assert(before.entry(c[o1]).elm_id != before.entry(c[o2]).elm_id);
        }
        if j == 0 && c2.len() > 0 {
            assert(before.chain_link(li, 1));
        }
        assert(c2.no_duplicates());
        assert forall|e: int| #[trigger] self.leaf_has(li, e) == (before.leaf_has(li, e) && e != element_id) by {
            if self.leaf_has(li, e) {
                let k = choose|k: int| 0 <= k < self.chain@[li].len() && #[trigger] self.element_nodes@[self.chain@[li][k]].elm_id == e;
                let ok = if k < j { k } else { k + 1 };
                assert(before.entry(c[ok]).elm_id == e);
                assert(ok != j);
            }
            if before.leaf_has(li, e) && e != element_id {
                let k = choose|k: int| 0 <= k < before.chain@[li].len() && #[trigger] before.element_nodes@[before.chain@[li][k]].elm_id == e;
                assert(k != j);
                let k2 = if k < j { k } else { k - 1 };
                assert(self.entry(c2[k2]).elm_id == e);
            }
        }
    }

    proof fn lemma_unlinked(&self, before: Self, li: int, j: int, element_id: int)
        requires
            before.wf_structure(),
            before.is_leaf(li),
            before.entry(before.chain@[li][j]).elm_id == element_id,
            self.unlink_step(before, li, j),
        ensures
            self.wf_structure(),
            forall|i: int| #[trigger] self.is_leaf(i) == before.is_leaf(i),
            !self.leaf_has(li, element_id),
            forall|l: int, e: int|
                before.is_leaf(l) && (l != li || e != element_id) ==> #[trigger] self.leaf_has(l, e)
                    == before.leaf_has(l, e),
    {
        self.lemma_unlinked_leaf(before, li, j, element_id);
        before.lemma_node(li);
        assert forall|i: int| #[trigger] self.live(i) implies self.wf_node(i) by {
            before.lemma_node(i);
            if i == li {
                if i != 0 {
                    before.lemma_node(before.parent@[i]);
                }
            } else {
                if i != 0 {
                    before.lemma_node(before.parent@[i]);
                }
                if before.is_leaf(i) {
                    self.lemma_chain_untouched(before, li, j, i);
                }
                if before.is_branch(i) {
                    assert(before.child_ok(i, 0));
                    assert(before.child_ok(i, 1));
                    assert(before.child_ok(i, 2));
                    assert(before.child_ok(i, 3));
                }
                self.lemma_node_frame(before, i);
            }
        }
        assert(self.nodes_ok()) by {
            reveal(QuadTree::nodes_ok);
        }
        assert(self.wf_free_nodes()) by {
            reveal(QuadTree::wf_free_nodes);
        }
        assert(self.elems_ok()) by {
            reveal(QuadTree::elems_ok);
        }
        assert forall|l: int, e: int|
            before.is_leaf(l) && (l != li || e != element_id) implies #[trigger] self.leaf_has(l, e) == before.leaf_has(l, e) by {
            if l != li {
                before.lemma_node(l);
                self.lemma_chain_untouched(before, li, j, l);
                self.lemma_leaf_frame(before, l);
            }
        }
    }

    /// Removes element `element_id`'s entry, if any, from the chain of leaf
    /// `leaf_index`.
    fn unlink(&mut self, leaf_index: i32, element_id: i32)
        requires
            old(self).wf_structure(),
            old(self).is_leaf(leaf_index as int),
        ensures
            final(self).wf_structure(),
            final(self).elm_rects == old(self).elm_rects,
            final(self).data == old(self).data,
            final(self).root_rect == old(self).root_rect,
            final(self).elements_per_node == old(self).elements_per_node,
            final(self).region == old(self).region,
            final(self).depth == old(self).depth,
            final(self).nodes@.dom() == old(self).nodes@.dom(),
            final(self).nodes.free_chain() == old(self).nodes.free_chain(),
            final(self).nodes.slots() == old(self).nodes.slots(),
            forall|i: int| #[trigger] final(self).is_leaf(i) == old(self).is_leaf(i),
            !final(self).leaf_has(leaf_index as int, element_id as int),
            forall|l: int, e: int|
                old(self).is_leaf(l) && (l != leaf_index || e != element_id) ==> #[trigger] final(self).leaf_has(l, e)
                    == old(self).leaf_has(l, e),
            final(self).element_nodes.slots() == old(self).element_nodes.slots(),
            final(self).max_depth == old(self).max_depth,
            forall|i: int| #[trigger] final(self).nodes@[i].count <= old(self).nodes@[i].count,
    {
        let ghost li = leaf_index as int;
        let ghost c = self.chain@[li];
        proof {
            self.lemma_node(li);
            reveal(QuadTree::wf_leaf);
        }
        let node = *self.nodes.get(leaf_index);
        let mut element_index = node.first_child;
        let mut prev_index: i32 = -1;
        let ghost mut j: int = 0;
        let ghost mut found = false;
        loop
            invariant_except_break
                !found,
            invariant
                found ==> j < c.len() && self.entry(c[j]).elm_id == element_id,
                self.wf_structure(),
                self.wf_leaf(li),
                self.is_leaf(li),
                node == self.nodes@[li],
                c == self.chain@[li],
                0 <= j <= c.len(),
                element_index == (if j < c.len() { c[j] } else { -1 }),
                prev_index == (if j == 0 { -1 } else { c[j - 1] }),
                forall|i: int| 0 <= i < j ==> self.entry(#[trigger] c[i]).elm_id != element_id,
            ensures
                found ==> j < c.len() && self.entry(c[j]).elm_id == element_id,
                !found ==> element_index == -1,
            decreases c.len() - j,
        {
            if element_index == -1 {
                break;
            }
            proof {
                reveal(QuadTree::wf_leaf);
                assert(self.chain_link(li, j));
            }
            let en = *self.element_nodes.get(element_index);
            if en.elm_id == element_id {
                proof {
                    found = true;
                }
                break;
            }
            prev_index = element_index;
            element_index = en.next;
            proof {
                j = j + 1;
            }
        }
        proof {
            reveal(QuadTree::wf_leaf);
            if j < c.len() {
                assert(self.chain_link(li, j));
                self.element_nodes.lemma_wf();
            }
        }
        if element_index != -1 {
            proof {
                assert(found);
                assert(self.chain_link(li, j));
                if j > 0 {
                    assert(self.chain_link(li, j - 1));
                }
            }
            let ghost before = *self;
            let next_index = self.element_nodes.get(element_index).next;
            if prev_index == -1 {
                self.nodes.set(leaf_index, Node { first_child: next_index, count: node.count - 1 });
            } else {
                let prev = *self.element_nodes.get(prev_index);
                self.element_nodes.set(prev_index, ElmRectNode { next: next_index, elm_id: prev.elm_id });
                self.nodes.set(leaf_index, Node { first_child: node.first_child, count: node.count - 1 });
            }
            self.element_nodes.erase(element_index);
            self.chain = Ghost(self.chain@.insert(li, c.remove(j)));
            proof {
                self.lemma_unlinked(before, li, j, element_id as int);
            }
        } else {
            proof {
                assert(j == c.len());
                assert(!self.leaf_has(li, element_id as int));
            }
        }
    }

    proof fn lemma_removed(&self, before: Self, orig: Self, e: int)
        requires
            orig.wf_structure(),
            orig.placed_except(e),
            before.wf_structure(),
            orig.elm_rects@.contains_key(e),
            before.elm_rects == orig.elm_rects,
            before.data == orig.data,
            before.region == orig.region,
            forall|l: int| #[trigger] before.is_leaf(l) == orig.is_leaf(l),
            forall|l: int, e2: int| orig.is_leaf(l) && e2 != e ==> #[trigger] before.leaf_has(l, e2) == orig.leaf_has(l, e2),
            forall|l: int| #[trigger] before.is_leaf(l) ==> !before.leaf_has(l, e),
            self.nodes == before.nodes,
            self.element_nodes == before.element_nodes,
            self.root_rect == before.root_rect,
            self.max_depth == before.max_depth,
            self.elements_per_node == before.elements_per_node,
            self.query_tmp_buffer == before.query_tmp_buffer,
            self.depth == before.depth,
            self.region == before.region,
            self.parent == before.parent,
            self.chain == before.chain,
            self.owner == before.owner,
            self.elm_rects.wf(),
            self.elm_rects@ == before.elm_rects@.remove(e),
            self.data.wf(),
            self.data@ == before.data@.remove(before.elm_rects@[e].data_id as int),
        ensures
            self.wf(),
            self.elements() == orig.elements().remove(e),
            forall|i: int| #[trigger] self.is_leaf(i) == orig.is_leaf(i),
    {
        assert forall|i: int| #[trigger] self.is_leaf(i) == orig.is_leaf(i) by {
            assert(before.is_leaf(i) == orig.is_leaf(i));
        }
        reveal(QuadTree::elems_ok);
        assert forall|i: int| #[trigger] self.live(i) implies self.wf_node(i) by {
            before.lemma_node(i);
            if i != 0 {
                before.lemma_node(before.parent@[i]);
            }
            if before.is_branch(i) {
                assert(before.child_ok(i, 0));
                assert(before.child_ok(i, 1));
                assert(before.child_ok(i, 2));
                assert(before.child_ok(i, 3));
            }
            if before.is_leaf(i) {
                reveal(QuadTree::wf_leaf);
                let c = before.chain@[i];
                assert forall|k: int| 0 <= k < c.len() implies {
                    &&& self.element_nodes@.contains_key(#[trigger] c[k])
                    &&& self.entry(c[k]) == before.entry(c[k])
                    &&& self.owner@[c[k]] == before.owner@[c[k]]
                    &&& self.elm_rects@.contains_key(before.entry(c[k]).elm_id as int)
                } by {
                    assert(before.chain_link(i, k));
                    if before.entry(c[k]).elm_id == e {
                        assert(before.leaf_has(i, e));
                    }
                }
                assert(self.same_chain(before, i));
            }
            self.lemma_node_frame(before, i);
        }
        assert(self.nodes_ok()) by {
            reveal(QuadTree::nodes_ok);
        }
        assert(self.wf_free_nodes()) by {
            reveal(QuadTree::wf_free_nodes);
        }
        assert forall|d: int| #[trigger] self.data@.contains_key(d) implies exists|e1: int| #[trigger] self.elm_rects@.contains_key(e1) && self.elm_rects@[e1].data_id == d by {
            let e1 = choose|e1: int| #[trigger] before.elm_rects@.contains_key(e1) && before.elm_rects@[e1].data_id == d;
            assert(self.elm_rects@.contains_key(e1));
        }
        assert(self.elems_ok());
        reveal(QuadTree::all_placed);
        reveal(QuadTree::placed_except);
        assert forall|e2: int| #[trigger] self.elm_rects@.contains_key(e2) implies self.placed(e2) by {
            assert(orig.placed(e2));
            assert forall|l: int| #[trigger] self.is_leaf(l) implies (self.leaf_has(l, e2) <==> overlaps(self.region@[l], self.erect(e2))) by {
                assert(before.is_leaf(l));
                assert(orig.is_leaf(l));
                assert(self.leaf_has(l, e2) == before.leaf_has(l, e2));
                assert(before.leaf_has(l, e2) == orig.leaf_has(l, e2));
                assert(self.erect(e2) == orig.erect(e2));
            }
        }
        assert(self.elements() =~= orig.elements().remove(e));
    }

    /// `self` is `before` with a new entry `x` for element `elm` put at the
    /// head of leaf `l`'s chain.
    pub(crate) open spec fn prepend_step(&self, before: Self, l: int, x: int, elm: int) -> bool {
        &&& self.nodes.wf()
        &&& self.element_nodes.wf()
        &&& self.elm_rects == before.elm_rects
        &&& self.data == before.data
        &&& self.root_rect == before.root_rect
        &&& self.max_depth == before.max_depth
        &&& self.elements_per_node == before.elements_per_node
        &&& self.query_tmp_buffer == before.query_tmp_buffer
        &&& self.depth == before.depth
        &&& self.region == before.region
        &&& self.parent == before.parent
        &&& self.nodes.free_chain() == before.nodes.free_chain()
        &&& self.nodes@ == before.nodes@.insert(l, Node { first_child: x as i32, count: (before.nodes@[l].count + 1) as i32 })
        &&& !before.element_nodes@.contains_key(x)
        &&& self.element_nodes@ == before.element_nodes@.insert(x, ElmRectNode { next: before.nodes@[l].first_child, elm_id: elm as i32 })
        &&& self.chain@ == before.chain@.insert(l, seq![x] + before.chain@[l])
        &&& self.owner@ == before.owner@.insert(x, l)
    }

    proof fn lemma_prepended(&self, before: Self, l: int, x: int, elm: int)
        requires
            before.wf_structure(),
            before.is_leaf(l),
            before.nodes@[l].count < i32::MAX,
            0 <= x <= i32::MAX,
            i32::MIN <= elm <= i32::MAX,
            before.elm_rects@.contains_key(elm),
            !before.leaf_has(l, elm),
            self.prepend_step(before, l, x, elm),
        ensures
            self.wf_structure(),
            forall|i: int| #[trigger] self.is_leaf(i) == before.is_leaf(i),
            forall|e: int| #[trigger] self.leaf_has(l, e) == (before.leaf_has(l, e) || e == elm),
            forall|l2: int, e: int| before.is_leaf(l2) && l2 != l ==> #[trigger] self.leaf_has(l2, e) == before.leaf_has(l2, e),
    {
        before.lemma_node(l);
        let c = before.chain@[l];
        let c2 = seq![x] + c;
        assert(self.chain@[l] == c2);
        assert(self.wf_leaf(l)) by {
            reveal(QuadTree::wf_leaf);
            assert forall|k: int| 0 <= k < c.len() implies self.entry(#[trigger] c[k]) == before.entry(c[k]) && c[k] != x by {
                assert(before.chain_link(l, k));
            }
            assert forall|k: int| 0 <= k < c2.len() implies #[trigger] self.chain_link(l, k) by {
                if k > 0 {
                    assert(c2[k] == c[k - 1]);
                    assert(before.chain_link(l, k - 1));
                } else {
                    assert(c2[0] == x);
                    assert(self.entry(x).next == before.nodes@[l].first_child);
                    if c.len() > 0 {
                        assert(c2[1] == c[0]);
                    }
                }
            }
            assert forall|k1: int, k2: int|
                0 <= k1 < c2.len() && 0 <= k2 < c2.len() && k1 != k2 implies #[trigger] self.entry(c2[k1]).elm_id
                    != #[trigger] self.entry(c2[k2]).elm_id by {
                if k1 == 0 {
                    assert(c2[k2] == c[k2 - 1]);
                    assert(before.element_nodes@[before.chain@[l][k2 - 1]].elm_id != elm);
                } else if k2 == 0 {
                    assert(c2[k1] == c[k1 - 1]);
                    assert(before.element_nodes@[before.chain@[l][k1 - 1]].elm_id != elm);
                } else {
                    assert(c2[k1] == c[k1 - 1]);
                    assert(c2[k2] == c[k2 - 1]);
                }
            }
            assert(c2.no_duplicates()) by {
                assert forall|a: int, b: int| 0 <= a < b < c2.len() implies c2[a] != c2[b] by {
                    if a == 0 {
                        assert(before.chain_link(l, b - 1));
                    }
                }
            }
        }
        assert forall|e: int| #[trigger] self.leaf_has(l, e) == (before.leaf_has(l, e) || e == elm) by {
            reveal(QuadTree::wf_leaf);
            if self.leaf_has(l, e) && e != elm {
                let k = choose|k: int| 0 <= k < self.chain@[l].len() && #[trigger] self.element_nodes@[self.chain@[l][k]].elm_id == e;
                assert(k > 0);
                assert(before.chain_link(l, k - 1));
                assert(before.element_nodes@[before.chain@[l][k - 1]].elm_id == e);
            }
            if before.leaf_has(l, e) {
                let k = choose|k: int| 0 <= k < before.chain@[l].len() && #[trigger] before.element_nodes@[before.chain@[l][k]].elm_id == e;
                assert(before.chain_link(l, k));
                assert(self.element_nodes@[self.chain@[l][k + 1]].elm_id == e);
            }
            if e == elm {
                assert(self.element_nodes@[self.chain@[l][0]].elm_id == e);
            }
        }
        assert forall|i: int| #[trigger] self.live(i) implies self.wf_node(i) by {
            before.lemma_node(i);
            if i != 0 {
                before.lemma_node(before.parent@[i]);
            }
            if i == l {
                if l != 0 {
                    before.lemma_node(before.parent@[l]);
                }
            } else {
                if before.is_branch(i) {
                    assert(before.child_ok(i, 0));
                    assert(before.child_ok(i, 1));
                    assert(before.child_ok(i, 2));
                    assert(before.child_ok(i, 3));
                }
                if before.is_leaf(i) {
                    self.lemma_prepend_untouched(before, l, x, elm, i);
                }
                self.lemma_node_frame(before, i);
            }
        }
        assert(self.nodes_ok()) by {
            reveal(QuadTree::nodes_ok);
        }
        assert(self.wf_free_nodes()) by {
            reveal(QuadTree::wf_free_nodes);
        }
        assert(self.elems_ok()) by {
            reveal(QuadTree::elems_ok);
        }
        assert forall|l2: int, e: int| before.is_leaf(l2) && l2 != l implies #[trigger] self.leaf_has(l2, e) == before.leaf_has(l2, e) by {
            self.lemma_prepend_untouched(before, l, x, elm, l2);
            self.lemma_leaf_frame(before, l2);
        }
    }

    proof fn lemma_prepend_untouched(&self, before: Self, l: int, x: int, elm: int, l2: int)
        requires
            before.wf_structure(),
            self.prepend_step(before, l, x, elm),
            before.is_leaf(l2),
            l2 != l,
        ensures
            self.same_chain(before, l2),
    {
        reveal(QuadTree::wf_leaf);
        before.lemma_node(l2);
        let cl = before.chain@[l2];
        assert forall|k: int| 0 <= k < cl.len() implies {
            &&& self.element_nodes@.contains_key(#[trigger] cl[k])
            &&& self.entry(cl[k]) == before.entry(cl[k])
            &&& self.owner@[cl[k]] == before.owner@[cl[k]]
            &&& self.elm_rects@.contains_key(before.entry(cl[k]).elm_id as int)
        } by {
            assert(before.chain_link(l2, k));
        }
    }

    /// Puts a new entry for element `elm` at the head of leaf `l`'s chain.
    fn leaf_prepend(&mut self, l: i32, elm: i32)
        requires
            old(self).wf_structure(),
            old(self).is_leaf(l as int),
            old(self).elm_rects@.contains_key(elm as int),
            !old(self).leaf_has(l as int, elm as int),
            old(self).element_nodes.free_chain().len() > 0 || old(self).element_nodes.slots() < i32::MAX,
        ensures
            final(self).wf_structure(),
            final(self).elm_rects == old(self).elm_rects,
            final(self).data == old(self).data,
            final(self).root_rect == old(self).root_rect,
            final(self).max_depth == old(self).max_depth,
            final(self).query_tmp_buffer == old(self).query_tmp_buffer,
            final(self).elements_per_node == old(self).elements_per_node,
            final(self).region == old(self).region,
            final(self).depth == old(self).depth,
            final(self).parent == old(self).parent,
            final(self).nodes@.dom() == old(self).nodes@.dom(),
            final(self).nodes.free_chain() == old(self).nodes.free_chain(),
            final(self).nodes.slots() == old(self).nodes.slots(),
            forall|i: int| i != l ==> #[trigger] final(self).nodes@[i] == old(self).nodes@[i],
            final(self).nodes@[l as int].count == old(self).nodes@[l as int].count + 1,
            forall|i: int| #[trigger] final(self).is_leaf(i) == old(self).is_leaf(i),
            forall|e: int| #[trigger] final(self).leaf_has(l as int, e) == (old(self).leaf_has(l as int, e) || e == elm),
            forall|l2: int, e: int| old(self).is_leaf(l2) && l2 != l ==> #[trigger] final(self).leaf_has(l2, e) == old(self).leaf_has(l2, e),
            forall|y: int| #[trigger] old(self).element_nodes@.contains_key(y) ==> final(self).element_nodes@.contains_key(y)
                && final(self).element_nodes@[y] == old(self).element_nodes@[y] && final(self).owner@[y] == old(self).owner@[y],
            final(self).element_nodes.slots() <= old(self).element_nodes.slots() + 1,
            final(self).element_nodes.slots() >= old(self).element_nodes.slots(),
            old(self).element_nodes.free_chain().len() > 0 ==> final(self).element_nodes.slots() == old(self).element_nodes.slots(),
    {
        let ghost before = *self;
        proof {
            self.lemma_node(l as int);
            reveal(QuadTree::wf_leaf);
            let c = self.chain@[l as int];
            assert forall|k: int| 0 <= k < c.len() implies self.element_nodes@.contains_key(#[trigger] c[k]) by {
                assert(self.chain_link(l as int, k));
            }
            self.element_nodes.lemma_live_seq_len(c);
            self.element_nodes.lemma_wf();
        }
        let mut nd = *self.nodes.get(l);
        proof {
            assert(nd.count == self.chain@[l as int].len());
        }
        ElmRectNode::insert(elm, &mut nd, &mut self.element_nodes);
        self.nodes.set(l, nd);
        let ghost x = nd.first_child as int;
        self.chain = Ghost(self.chain@.insert(l as int, seq![x] + self.chain@[l as int]));
        self.owner = Ghost(self.owner@.insert(x, l as int));
        proof {
            self.lemma_prepended(before, l as int, x, elm as int);
        }
    }

    /// Allocates four consecutive empty leaves and returns the first index.
    /// Consecutive slots come either from the end of the list or from the
    /// head group of the free chain, which `cleanup` fills four at a time.
    fn alloc_children(&mut self) -> (a: i32)
        requires
            old(self).nodes.wf(),
            old(self).wf_free_nodes(),
            old(self).nodes.free_chain().len() > 0 || old(self).nodes.slots() + 4 <= i32::MAX,
        ensures
            final(self).nodes.wf(),
            final(self).wf_free_nodes(),
            final(self).nodes.slots() <= old(self).nodes.slots() + 4,
            is_suffix(old(self).nodes.free_chain(), final(self).nodes.free_chain()),
            0 <= a,
            a + 4 <= i32::MAX,
            !old(self).nodes@.contains_key(a as int),
            !old(self).nodes@.contains_key(a + 1),
            !old(self).nodes@.contains_key(a + 2),
            !old(self).nodes@.contains_key(a + 3),
            final(self).nodes@ == old(self).nodes@.insert(a as int, empty_node()).insert(a + 1, empty_node()).insert(
                a + 2,
                empty_node(),
            ).insert(a + 3, empty_node()),
            final(self).elm_rects == old(self).elm_rects,
            final(self).element_nodes == old(self).element_nodes,
            final(self).data == old(self).data,
            final(self).root_rect == old(self).root_rect,
            final(self).max_depth == old(self).max_depth,
            final(self).elements_per_node == old(self).elements_per_node,
            final(self).query_tmp_buffer == old(self).query_tmp_buffer,
            final(self).depth == old(self).depth,
            final(self).region == old(self).region,
            final(self).parent == old(self).parent,
            final(self).chain == old(self).chain,
            final(self).owner == old(self).owner,
    {
        let ghost f = self.nodes.free_chain();
        proof {
            reveal(QuadTree::wf_free_nodes);
            self.nodes.lemma_wf();
            if f.len() > 0 {
                assert(f[1] == f[0] + 1 && f[2] == f[0] + 2 && f[3] == f[0] + 3) by {
                    assert(f[4 * 0int] == f[0]);
                }
                assert(f[0] < self.nodes.slots() && f[3] < self.nodes.slots());
            }
        }
        let a = self.nodes.insert(Node::leaf());
        let b = self.nodes.insert(Node::leaf());
        let c = self.nodes.insert(Node::leaf());
        let d = self.nodes.insert(Node::leaf());
        proof {
            reveal(QuadTree::wf_free_nodes);
            let f2 = self.nodes.free_chain();
            if f.len() > 0 {
                assert(f2 =~= f.subrange(4, f.len() as int));
                assert forall|g: int| 0 <= g && 4 * g < f2.len() implies {
                    &&& f2[4 * g + 1] == #[trigger] f2[4 * g] + 1
                    &&& f2[4 * g + 2] == f2[4 * g] + 2
                    &&& f2[4 * g + 3] == f2[4 * g] + 3
                } by {
                    assert(f2[4 * g] == f[4 * (g + 1)]);
                    assert(f2[4 * g + 1] == f[4 * (g + 1) + 1]);
                    assert(f2[4 * g + 2] == f[4 * (g + 1) + 2]);
                    assert(f2[4 * g + 3] == f[4 * (g + 1) + 3]);
                }
            }
            assert(b == a + 1 && c == a + 2 && d == a + 3);
            if f.len() > 0 {
                assert(f.subrange(f.len() - f2.len(), f.len() as int) =~= f2);
            } else {
                assert(f.subrange(0, 0) =~= f2);
            }
        }
        a
    }

    /// `self` is `before` with leaf `n` turned into a branch over four new
    /// empty leaves at `a .. a + 4`.
    pub(crate) open spec fn branch_step(&self, before: Self, n: int, a: int) -> bool {
        let d = before.depth@[n] + 1;
        let r = before.region@[n];
        &&& 0 <= a
        &&& a + 4 <= i32::MAX
        &&& !before.nodes@.contains_key(a)
        &&& !before.nodes@.contains_key(a + 1)
        &&& !before.nodes@.contains_key(a + 2)
        &&& !before.nodes@.contains_key(a + 3)
        &&& self.nodes.wf()
        &&& self.wf_free_nodes()
        &&& self.nodes@ == before.nodes@.insert(a, empty_node()).insert(a + 1, empty_node()).insert(a + 2, empty_node()).insert(
            a + 3,
            empty_node(),
        ).insert(n, Node { first_child: a as i32, count: -1i32 })
        &&& self.element_nodes == before.element_nodes
        &&& self.elm_rects == before.elm_rects
        &&& self.data == before.data
        &&& self.root_rect == before.root_rect
        &&& self.max_depth == before.max_depth
        &&& self.elements_per_node == before.elements_per_node
        &&& self.query_tmp_buffer == before.query_tmp_buffer
        &&& self.owner == before.owner
        &&& self.depth@ == before.depth@.insert(a, d).insert(a + 1, d).insert(a + 2, d).insert(a + 3, d)
        &&& self.region@ == before.region@.insert(a, quad(r, 0)).insert(a + 1, quad(r, 1)).insert(a + 2, quad(r, 2)).insert(
            a + 3,
            quad(r, 3),
        )
        &&& self.parent@ == before.parent@.insert(a, n).insert(a + 1, n).insert(a + 2, n).insert(a + 3, n)
        &&& self.chain@ == before.chain@.insert(a, Seq::empty()).insert(a + 1, Seq::empty()).insert(a + 2, Seq::empty()).insert(
            a + 3,
            Seq::empty(),
        )
    }

    /// Old nodes keep their ghost data; the nodes that appeared are the
    /// given four.
    pub(crate) open spec fn grows_by(&self, before: Self, a: int) -> bool {
        &&& forall|i: int| #[trigger] before.live(i) ==> {
            &&& self.live(i)
            &&& self.depth@[i] == before.depth@[i]
            &&& self.region@[i] == before.region@[i]
            &&& self.parent@[i] == before.parent@[i]
        }
        &&& forall|i: int| #[trigger] self.live(i) ==> before.live(i) || (a <= i < a + 4)
    }

    proof fn lemma_made_branch(&self, before: Self, n: int, a: int)
        requires
            before.wf_structure(),
            before.is_leaf(n),
            before.depth@[n] < before.max_depth,
            self.branch_step(before, n, a),
        ensures
            self.wf_structure(),
            self.is_branch(n),
            self.fc(n) == a,
            self.grows_by(before, a),
            forall|i: int| before.live(i) && i != n ==> #[trigger] self.nodes@[i] == before.nodes@[i],
            forall|l: int, e: int| before.is_leaf(l) && l != n ==> #[trigger] self.leaf_has(l, e) == before.leaf_has(l, e),
            forall|l: int| before.is_leaf(l) && l != n ==> #[trigger] self.is_leaf(l),
            forall|k: int, e: int| 0 <= k < 4 ==> self.is_leaf(a + k) && !#[trigger] self.leaf_has(a + k, e),
    {
        before.lemma_node(n);
        before.element_nodes.lemma_wf();
        assert(n != a && n != a + 1 && n != a + 2 && n != a + 3);
        let r = before.region@[n];
        lemma_quad_within(r, 0);
        lemma_quad_within(r, 1);
        lemma_quad_within(r, 2);
        lemma_quad_within(r, 3);
        assert forall|k: int| 0 <= k < 4 implies #[trigger] self.wf_node(a + k) && self.is_leaf(a + k) by {
            reveal(QuadTree::wf_leaf);
            assert(self.chain@[a + k] == Seq::<int>::empty());
        }
        assert(self.wf_node(n)) by {
            if n != 0 {
                before.lemma_node(before.parent@[n]);
            }
            assert(self.child_ok(n, 0));
            assert(self.child_ok(n, 1));
            assert(self.child_ok(n, 2));
            assert(self.child_ok(n, 3));
        }
        assert forall|i: int| #[trigger] self.live(i) implies self.wf_node(i) by {
            if before.live(i) && i != n {
                before.lemma_node(i);
                if i != 0 {
                    before.lemma_node(before.parent@[i]);
                }
                if before.is_branch(i) {
                    assert(before.child_ok(i, 0));
                    assert(before.child_ok(i, 1));
                    assert(before.child_ok(i, 2));
                    assert(before.child_ok(i, 3));
                }
                if before.is_leaf(i) {
                    reveal(QuadTree::wf_leaf);
                    let c = before.chain@[i];
                    assert forall|k: int| 0 <= k < c.len() implies {
                        &&& self.element_nodes@.contains_key(#[trigger] c[k])
                        &&& self.entry(c[k]) == before.entry(c[k])
                        &&& self.owner@[c[k]] == before.owner@[c[k]]
                        &&& self.elm_rects@.contains_key(before.entry(c[k]).elm_id as int)
                    } by {
                        assert(before.chain_link(i, k));
                    }
                }
                self.lemma_node_frame(before, i);
            }
        }
        assert(self.nodes_ok()) by {
            reveal(QuadTree::nodes_ok);
        }
        assert(self.elems_ok()) by {
            reveal(QuadTree::elems_ok);
        }
        assert forall|l: int, e: int| before.is_leaf(l) && l != n implies #[trigger] self.leaf_has(l, e) == before.leaf_has(l, e) by {
            assert(self.chain@[l] == before.chain@[l]);
        }
        assert forall|k: int, e: int| 0 <= k < 4 implies self.is_leaf(a + k) && !#[trigger] self.leaf_has(a + k, e) by {
            assert(self.chain@[a + k] == Seq::<int>::empty());
        }
    }

    /// Freeing an entry that no leaf's chain holds keeps the tree well formed.
    proof fn lemma_erased_detached(&self, before: Self, x: int)
        requires
            before.wf_structure(),
            !before.is_leaf(before.owner@[x]),
            self.element_nodes.wf(),
            self.element_nodes@ == before.element_nodes@.remove(x),
            self.nodes == before.nodes,
            self.elm_rects == before.elm_rects,
            self.data == before.data,
            self.root_rect == before.root_rect,
            self.max_depth == before.max_depth,
            self.elements_per_node == before.elements_per_node,
            self.query_tmp_buffer == before.query_tmp_buffer,
            self.depth == before.depth,
            self.region == before.region,
            self.parent == before.parent,
            self.chain == before.chain,
            self.owner == before.owner,
        ensures
            self.wf_structure(),
            forall|l: int, e: int| before.is_leaf(l) ==> #[trigger] self.leaf_has(l, e) == before.leaf_has(l, e),
    {
        assert forall|i: int| #[trigger] self.live(i) implies self.wf_node(i) && (before.is_leaf(i) ==> self.same_chain(before, i)) by {
            before.lemma_node(i);
            if i != 0 {
                before.lemma_node(before.parent@[i]);
            }
            if before.is_branch(i) {
                assert(before.child_ok(i, 0));
                assert(before.child_ok(i, 1));
                assert(before.child_ok(i, 2));
                assert(before.child_ok(i, 3));
            }
            if before.is_leaf(i) {
                reveal(QuadTree::wf_leaf);
                let c = before.chain@[i];
                assert forall|k: int| 0 <= k < c.len() implies {
                    &&& self.element_nodes@.contains_key(#[trigger] c[k])
                    &&& self.entry(c[k]) == before.entry(c[k])
                    &&& self.owner@[c[k]] == before.owner@[c[k]]
                    &&& self.elm_rects@.contains_key(before.entry(c[k]).elm_id as int)
                } by {
                    assert(before.chain_link(i, k));
                }
            }
            self.lemma_node_frame(before, i);
        }
        assert(self.nodes_ok()) by {
            reveal(QuadTree::nodes_ok);
        }
        assert(self.wf_free_nodes()) by {
            reveal(QuadTree::wf_free_nodes);
        }
        assert(self.elems_ok()) by {
            reveal(QuadTree::elems_ok);
        }
        assert forall|l: int, e: int| before.is_leaf(l) implies #[trigger] self.leaf_has(l, e) == before.leaf_has(l, e) by {
            assert(self.live(l));
            self.lemma_leaf_frame(before, l);
        }
    }

    /// Adds element `elm` to each child of branch `n` whose quadrant it
    /// overlaps.
    fn prepend_to_children(&mut self, n: i32, node_rect: Rect, elm: i32)
        requires
            old(self).wf_structure(),
            old(self).is_branch(n as int),
            old(self).region@[n as int] == node_rect,
            old(self).elm_rects@.contains_key(elm as int),
            forall|k: int| 0 <= k < 4 ==> !#[trigger] old(self).leaf_has(old(self).fc(n as int) + k, elm as int),
            forall|k: int| 0 <= k < 4 ==> #[trigger] old(self).is_leaf(old(self).fc(n as int) + k),
            old(self).element_nodes.slots() + 4 <= i32::MAX,
        ensures
            forall|kk: int| 0 <= kk < 4 ==> #[trigger] final(self).nodes@[old(self).fc(n as int) + kk].count <= old(self).nodes@[old(self).fc(n as int) + kk].count + 1,
            final(self).wf_structure(),
            final(self).elm_rects == old(self).elm_rects,
            final(self).data == old(self).data,
            final(self).root_rect == old(self).root_rect,
            final(self).elements_per_node == old(self).elements_per_node,
            final(self).max_depth == old(self).max_depth,
            final(self).query_tmp_buffer == old(self).query_tmp_buffer,
            final(self).region == old(self).region,
            final(self).depth == old(self).depth,
            final(self).parent == old(self).parent,
            final(self).nodes@.dom() == old(self).nodes@.dom(),
            final(self).nodes.free_chain() == old(self).nodes.free_chain(),
            final(self).nodes.slots() == old(self).nodes.slots(),
            forall|i: int| !(old(self).fc(n as int) <= i < old(self).fc(n as int) + 4) ==> #[trigger] final(self).nodes@[i] == old(self).nodes@[i],
            forall|i: int| #[trigger] final(self).is_leaf(i) == old(self).is_leaf(i),
            forall|k: int, e: int|
                0 <= k < 4 ==> #[trigger] final(self).leaf_has(old(self).fc(n as int) + k, e) == (old(self).leaf_has(old(self).fc(n as int) + k, e) || (e == elm
                    && overlaps(quad(node_rect, k), old(self).erect(elm as int)))),
            forall|l: int, e: int|
                old(self).is_leaf(l) && !(old(self).fc(n as int) <= l < old(self).fc(n as int) + 4) ==> #[trigger] final(self).leaf_has(l, e)
                    == old(self).leaf_has(l, e),
            forall|y: int| #[trigger] old(self).element_nodes@.contains_key(y) ==> final(self).element_nodes@.contains_key(y)
                && final(self).element_nodes@[y] == old(self).element_nodes@[y] && final(self).owner@[y] == old(self).owner@[y],
            final(self).element_nodes.slots() <= old(self).element_nodes.slots() + 4,
            final(self).element_nodes.slots() >= old(self).element_nodes.slots(),
    {
        let ghost fc = self.fc(n as int);
        proof {
            self.lemma_node(n as int);
        }
        let node = *self.nodes.get(n);
        let locations = node_rect.location_quads();
        let er = self.elm_rects.get(elm).rect;
        let mut k: i32 = 0;
        while k < 4
            invariant
                forall|kk: int| 0 <= kk < 4 ==> #[trigger] self.nodes@[fc + kk].count <= old(self).nodes@[fc + kk].count + (if kk < k { 1int } else { 0int }),
                0 <= k <= 4,
                fc == old(self).fc(n as int),
                node.first_child == fc,
                fc + 4 <= i32::MAX,
                0 <= fc,
                er == old(self).erect(elm as int),
                forall|j: int| 0 <= j < 4 ==> !#[trigger] old(self).leaf_has(fc + j, elm as int),
                forall|j: int| 0 <= j < 4 ==> #[trigger] old(self).is_leaf(fc + j),
                old(self).elm_rects@.contains_key(elm as int),
                old(self).element_nodes.slots() + 4 <= i32::MAX,
                forall|j: int| 0 <= j < 4 ==> locations@[j] == #[trigger] quad(node_rect, j),
                self.wf_structure(),
                self.elm_rects == old(self).elm_rects,
                self.data == old(self).data,
                self.root_rect == old(self).root_rect,
                self.elements_per_node == old(self).elements_per_node,
                self.max_depth == old(self).max_depth,
                self.query_tmp_buffer == old(self).query_tmp_buffer,
                self.region == old(self).region,
                self.depth == old(self).depth,
                self.parent == old(self).parent,
                self.nodes@.dom() == old(self).nodes@.dom(),
                self.nodes.free_chain() == old(self).nodes.free_chain(),
                self.nodes.slots() == old(self).nodes.slots(),
                forall|i: int| !(fc <= i < fc + 4) ==> #[trigger] self.nodes@[i] == old(self).nodes@[i],
                forall|i: int| #[trigger] self.is_leaf(i) == old(self).is_leaf(i),
                forall|j: int, e: int|
                    0 <= j < 4 ==> #[trigger] self.leaf_has(fc + j, e) == (old(self).leaf_has(fc + j, e) || (j < k && e == elm
                        && overlaps(quad(node_rect, j), er))),
                forall|l: int, e: int|
                    old(self).is_leaf(l) && !(fc <= l < fc + 4) ==> #[trigger] self.leaf_has(l, e) == old(self).leaf_has(l, e),
                forall|y: int| #[trigger] old(self).element_nodes@.contains_key(y) ==> self.element_nodes@.contains_key(y)
                    && self.element_nodes@[y] == old(self).element_nodes@[y] && self.owner@[y] == old(self).owner@[y],
                self.element_nodes.slots() <= old(self).element_nodes.slots() + k,
                self.element_nodes.slots() >= old(self).element_nodes.slots(),
            decreases 4 - k,
        {
            let ghost mid = *self;
            if locations[k as usize].intersect(er) {
                proof {
                    assert(old(self).is_leaf(fc + k));
                    assert(!old(self).leaf_has(fc + k, elm as int));
                    assert(self.leaf_has(fc + k, elm as int) == old(self).leaf_has(fc + k, elm as int));
                }
                self.leaf_prepend(node.first_child + k, elm);
                proof {
                    assert forall|kk: int| 0 <= kk < 4 implies #[trigger] self.nodes@[fc + kk].count <= old(self).nodes@[fc + kk].count + (if kk < k + 1 { 1int } else { 0int }) by {
                        if kk != k {
                            assert(self.nodes@[fc + kk] == mid.nodes@[fc + kk]);
                        }
                    }
                    assert forall|j: int, e: int|
                        0 <= j < 4 implies #[trigger] self.leaf_has(fc + j, e) == (old(self).leaf_has(fc + j, e) || (j < k + 1 && e == elm
                            && overlaps(quad(node_rect, j), er))) by {
                        if j != k {
                            assert(mid.is_leaf(fc + j));
                            assert(self.leaf_has(fc + j, e) == mid.leaf_has(fc + j, e));
                        }
                    }
                    assert forall|l: int, e: int|
                        old(self).is_leaf(l) && !(fc <= l < fc + 4) implies #[trigger] self.leaf_has(l, e) == old(self).leaf_has(l, e) by {
                        assert(mid.is_leaf(l));
                        assert(self.leaf_has(l, e) == mid.leaf_has(l, e));
                    }
                }
            }
            k = k + 1;
        }
    }

    proof fn lemma_split_done(&self, before: Self, n: int, a: int, e: int)
        requires
            before.wf_structure(),
            before.placed_except(e),
            before.half_placed(e),
            before.is_leaf(n),
            !before.leaf_has(n, e),
            self.wf_structure(),
            self.is_branch(n),
            self.fc(n) == a,
            self.region@[n] == before.region@[n],
            self.elm_rects == before.elm_rects,
            self.grows_by(before, a),
            forall|i: int| before.live(i) && i != n ==> #[trigger] self.nodes@[i] == before.nodes@[i],
            forall|l: int, e2: int| before.is_leaf(l) && l != n ==> #[trigger] self.leaf_has(l, e2) == before.leaf_has(l, e2),
            forall|k: int, e2: int| 0 <= k < 4 ==> #[trigger] self.leaf_has(a + k, e2) == (overlaps(quad(before.region@[n], k), before.erect(e2))
                && chain_has(before.chain@[n].subrange(0, before.chain@[n].len() as int), before.element_nodes@, e2)),
        ensures
            self.placed_except(e),
            self.half_placed(e),
    {
        let c = before.chain@[n];
        assert(c.subrange(0, c.len() as int) == c);
        self.lemma_node(n);
        let r = before.region@[n];
        before.lemma_node(n);
        reveal(QuadTree::placed_except);
        assert forall|e2: int| #[trigger] self.elm_rects@.contains_key(e2) && e2 != e implies self.placed(e2) by {
            assert(before.placed(e2));
            assert forall|l: int| #[trigger] self.is_leaf(l) implies (self.leaf_has(l, e2) <==> overlaps(self.region@[l], self.erect(e2))) by {
                assert(self.live(l));
                if before.live(l) {
                    assert(l != n);
                    assert(before.is_leaf(l) || before.is_branch(l));
                    if before.is_branch(l) {
                        before.lemma_node(l);
                        self.lemma_node(l);
                    }
                    assert(before.is_leaf(l));
                } else {
                    let k = l - a;
                    assert(0 <= k < 4);
                    assert(self.child_ok(n, 0) && self.child_ok(n, 1) && self.child_ok(n, 2) && self.child_ok(n, 3));
                    assert(self.child_ok(n, k));
                    lemma_quad_within(r, k);
                    assert(before.leaf_has(n, e2) == overlaps(r, before.erect(e2)));
                    if overlaps(quad(r, k), before.erect(e2)) {
                        lemma_overlaps_within(quad(r, k), r, before.erect(e2));
                    }
                }
            }
        }
        assert forall|l: int| #[trigger] self.is_leaf(l) && self.leaf_has(l, e) implies overlaps(self.region@[l], self.erect(e)) by {
            assert(self.live(l));
            if before.live(l) {
                assert(l != n);
                if before.is_branch(l) {
                    before.lemma_node(l);
                    self.lemma_node(l);
                }
                assert(before.is_leaf(l));
            } else {
                let k = l - a;
                assert(self.leaf_has(a + k, e));
                assert(!chain_has(c, before.element_nodes@, e));
            }
        }
    }

    /// Turns leaf `n` into a branch: four new leaves take over its entries,
    /// each getting the elements that overlap its quadrant.
    fn split(&mut self, n: i32, node_rect: Rect, depth: i32, element_id: i32)
        requires
            old(self).wf_structure(),
            old(self).placed_except(element_id as int),
            old(self).half_placed(element_id as int),
            old(self).is_leaf(n as int),
            old(self).region@[n as int] == node_rect,
            old(self).depth@[n as int] == depth,
            depth < old(self).max_depth,
            !old(self).leaf_has(n as int, element_id as int),
            old(self).nodes.free_chain().len() > 0 || old(self).nodes.slots() + 4 <= i32::MAX,
            old(self).element_nodes.slots() + 4 * old(self).nodes@[n as int].count <= i32::MAX,
        ensures
            final(self).wf_structure(),
            final(self).placed_except(element_id as int),
            final(self).half_placed(element_id as int),
            final(self).elm_rects == old(self).elm_rects,
            final(self).data == old(self).data,
            final(self).root_rect == old(self).root_rect,
            final(self).elements_per_node == old(self).elements_per_node,
            final(self).max_depth == old(self).max_depth,
            final(self).query_tmp_buffer == old(self).query_tmp_buffer,
            final(self).is_branch(n as int),
            final(self).grows_by(*old(self), final(self).fc(n as int)),
            forall|i: int| old(self).live(i) && i != n ==> #[trigger] final(self).nodes@[i] == old(self).nodes@[i],
            forall|l: int, e: int| old(self).is_leaf(l) && l != n ==> #[trigger] final(self).leaf_has(l, e) == old(self).leaf_has(l, e),
            forall|l: int| old(self).is_leaf(l) && l != n ==> #[trigger] final(self).is_leaf(l),
            forall|k: int| 0 <= k < 4 ==> #[trigger] final(self).is_leaf(final(self).fc(n as int) + k)
                && !final(self).leaf_has(final(self).fc(n as int) + k, element_id as int),
            final(self).descent_frame(*old(self), n as int, element_id as int),
            forall|l: int| #[trigger] final(self).is_leaf(l) && final(self).under(l, n as int) && l != n ==> !final(self).leaf_has(l, element_id as int),
            final(self).element_nodes.slots() >= old(self).element_nodes.slots(),
            final(self).element_nodes.slots() <= old(self).element_nodes.slots() + 4 * old(self).nodes@[n as int].count,
            final(self).nodes.slots() <= old(self).nodes.slots() + 4,
            forall|kk: int| 0 <= kk < 4 ==> #[trigger] final(self).nodes@[final(self).fc(n as int) + kk].count <= old(self).nodes@[n as int].count,
            is_suffix(old(self).nodes.free_chain(), final(self).nodes.free_chain()),
    {
        let ghost before = *self;
        let ghost ni = n as int;
        let ghost c = self.chain@[ni];
        proof {
            self.lemma_node(ni);
            reveal(QuadTree::wf_leaf);
            self.element_nodes.lemma_wf();
        }
        let node = *self.nodes.get(n);
        let a = self.alloc_children();
        self.nodes.set(n, Node { first_child: a, count: -1 });
        let ghost ai = a as int;
        let ghost d = depth + 1;
        self.depth = Ghost(self.depth@.insert(ai, d).insert(ai + 1, d).insert(ai + 2, d).insert(ai + 3, d));
        self.region = Ghost(self.region@.insert(ai, quad(node_rect, 0)).insert(ai + 1, quad(node_rect, 1)).insert(ai + 2, quad(node_rect, 2)).insert(
            ai + 3,
            quad(node_rect, 3),
        ));
        self.parent = Ghost(self.parent@.insert(ai, ni).insert(ai + 1, ni).insert(ai + 2, ni).insert(ai + 3, ni));
        self.chain = Ghost(self.chain@.insert(ai, Seq::empty()).insert(ai + 1, Seq::empty()).insert(ai + 2, Seq::empty()).insert(
            ai + 3,
            Seq::empty(),
        ));
        proof {
            assert(self.wf_free_nodes()) by {
                reveal(QuadTree::wf_free_nodes);
            }
            self.lemma_made_branch(before, ni, ai);
            before.lemma_node(ni);
            reveal(QuadTree::wf_leaf);
            assert forall|i: int| 0 <= i < c.len() implies before.chain_link(ni, i) by {}
            assert forall|i: int| 0 <= i < c.len() implies #[trigger] self.element_nodes@.contains_key(c[i]) && self.entry(c[i]) == before.entry(c[i])
                && self.owner@[c[i]] == ni by {
                assert(before.chain_link(ni, i));
            }
            assert forall|k: int, e2: int| 0 <= k < 4 implies #[trigger] self.leaf_has(ai + k, e2) == (overlaps(quad(node_rect, k), before.erect(e2))
                && chain_has(c.subrange(0, 0), before.element_nodes@, e2)) by {}
        }
        let mut cur = node.first_child;
        let ghost mut j: int = 0;
        proof {
            assert forall|i: int| j <= i < c.len() implies #[trigger] self.kept_entry(before, c[i], ni) by {
                assert(before.chain_link(ni, i));
            }
        }
        while cur != -1
            invariant
                ni == n as int,
                ai == a as int,
                before.live(ni),
                !before.live(ai),
                !before.live(ai + 1),
                !before.live(ai + 2),
                !before.live(ai + 3),
                c.no_duplicates(),
                self.wf_structure(),
                self.is_branch(ni),
                self.fc(ni) == ai,
                self.region@[ni] == node_rect,
                self.elm_rects == before.elm_rects,
                self.data == before.data,
                self.root_rect == before.root_rect,
                self.elements_per_node == before.elements_per_node,
                self.max_depth == before.max_depth,
                self.query_tmp_buffer == before.query_tmp_buffer,
                self.grows_by(before, ai),
                forall|i: int| before.live(i) && i != ni ==> #[trigger] self.nodes@[i] == before.nodes@[i],
                forall|l: int, e: int| before.is_leaf(l) && l != ni ==> #[trigger] self.leaf_has(l, e) == before.leaf_has(l, e),
                forall|l: int| before.is_leaf(l) && l != ni ==> #[trigger] self.is_leaf(l),
                forall|k: int| 0 <= k < 4 ==> #[trigger] self.is_leaf(ai + k),
                0 <= j <= c.len(),
                cur == (if j < c.len() { c[j] } else { -1 }),
                c == before.chain@[ni],
                before.wf_structure(),
                forall|i: int| 0 <= i < c.len() ==> before.chain_link(ni, i),
                forall|i1: int, i2: int|
                    0 <= i1 < c.len() && 0 <= i2 < c.len() && i1 != i2 ==> #[trigger] before.entry(c[i1]).elm_id
                        != #[trigger] before.entry(c[i2]).elm_id,
                forall|i: int| j <= i < c.len() ==> #[trigger] self.kept_entry(before, c[i], ni),
                forall|k: int, e2: int| 0 <= k < 4 ==> #[trigger] self.leaf_has(ai + k, e2) == (overlaps(quad(node_rect, k), before.erect(e2))
                    && chain_has(c.subrange(0, j), before.element_nodes@, e2)),
                self.element_nodes.slots() <= before.element_nodes.slots() + 4 * j,
                self.element_nodes.slots() >= before.element_nodes.slots(),
                self.nodes.slots() <= before.nodes.slots() + 4,
                c.len() == before.nodes@[ni].count,
                forall|kk: int| 0 <= kk < 4 ==> #[trigger] self.nodes@[ai + kk].count <= j,
                is_suffix(before.nodes.free_chain(), self.nodes.free_chain()),
                before.element_nodes.slots() + 4 * c.len() <= i32::MAX,
            decreases c.len() - j,
        {
            proof {
                if j >= c.len() {
                    assert(false);
                }
                assert(before.chain_link(ni, j));
                assert(self.kept_entry(before, c[j], ni));
            }
            let en = *self.element_nodes.get(cur);
            let ghost mid = *self;
            self.element_nodes.erase(cur);
            proof {
                self.lemma_erased_detached(mid, cur as int);
                assert forall|k: int| 0 <= k < 4 implies !#[trigger] self.leaf_has(self.fc(ni) + k, en.elm_id as int) by {
                    assert(mid.is_leaf(ai + k));
                    assert(self.leaf_has(ai + k, en.elm_id as int) == mid.leaf_has(ai + k, en.elm_id as int));
                    if chain_has(c.subrange(0, j), before.element_nodes@, en.elm_id as int) {
                        let i = choose|i: int| 0 <= i < c.subrange(0, j).len() && #[trigger] before.element_nodes@[c.subrange(0, j)[i]].elm_id == en.elm_id;
                        assert(c.subrange(0, j)[i] == c[i]);
                        assert(en == before.entry(c[j]));
                        assert(before.entry(c[i]).elm_id == before.entry(c[j]).elm_id);
                    }
                }
                assert forall|k: int| 0 <= k < 4 implies #[trigger] self.is_leaf(self.fc(ni) + k) by {
                    assert(mid.is_leaf(ai + k));
                }
            }
            let ghost mid2 = *self;
            proof {
                assert(self.is_branch(ni));
                assert(self.fc(ni) == ai);
            }
            self.prepend_to_children(n, node_rect, en.elm_id);
            cur = en.next;
            proof {
                let e_j = before.entry(c[j]).elm_id as int;
                assert forall|k: int, e2: int| 0 <= k < 4 implies #[trigger] self.leaf_has(ai + k, e2) == (overlaps(quad(node_rect, k), before.erect(e2))
                    && chain_has(c.subrange(0, j + 1), before.element_nodes@, e2)) by {
                    assert(mid.is_leaf(ai + k));
                    assert(mid2.leaf_has(ai + k, e2) == mid.leaf_has(ai + k, e2));
                    let s0 = c.subrange(0, j);
                    let s1 = c.subrange(0, j + 1);
                    if chain_has(s0, before.element_nodes@, e2) {
                        let i = choose|i: int| 0 <= i < s0.len() && #[trigger] before.element_nodes@[s0[i]].elm_id == e2;
                        assert(s1[i] == s0[i]);
                    }
                    if e2 == e_j {
                        assert(s1[j] == c[j]);
                    }
                    if chain_has(s1, before.element_nodes@, e2) && e2 != e_j {
                        let i = choose|i: int| 0 <= i < s1.len() && #[trigger] before.element_nodes@[s1[i]].elm_id == e2;
                        assert(i != j);
                        assert(s0[i] == s1[i]);
                    }
                }
                assert forall|l: int, e: int| before.is_leaf(l) && l != ni implies #[trigger] self.leaf_has(l, e) == before.leaf_has(l, e) by {
                    assert(mid.is_leaf(l));
                    assert(mid2.leaf_has(l, e) == mid.leaf_has(l, e));
                    if ai <= l < ai + 4 {
                        assert(!before.live(l));
                    }
                }
                assert forall|i: int| j + 1 <= i < c.len() implies #[trigger] self.kept_entry(before, c[i], ni) by {
                    assert(c[i] != c[j]);
                    assert(mid.kept_entry(before, c[i], ni));
                    assert(mid.element_nodes@.contains_key(c[i]));
                    assert(mid2.element_nodes@.contains_key(c[i]));
                }
                assert forall|i: int| before.live(i) && i != ni implies #[trigger] self.nodes@[i] == before.nodes@[i] by {
                    if ai <= i < ai + 4 {
                        assert(!before.live(i));
                    }
                }
                assert forall|l: int| before.is_leaf(l) && l != ni implies #[trigger] self.is_leaf(l) by {
                    assert(mid.is_leaf(l));
                    assert(mid2.is_leaf(l));
                }
                assert forall|i: int| #[trigger] before.live(i) implies {
                    &&& self.live(i)
                    &&& self.depth@[i] == before.depth@[i]
                    &&& self.region@[i] == before.region@[i]
                    &&& self.parent@[i] == before.parent@[i]
                } by {
                    assert(mid.live(i));
                }
                assert forall|i: int| #[trigger] self.live(i) implies before.live(i) || (ai <= i < ai + 4) by {
                    assert(mid.live(i));
                }
                assert(self.grows_by(before, ai));
                j = j + 1;
            }
        }
        proof {
            if j < c.len() {
                assert(self.kept_entry(before, c[j], ni));
                self.element_nodes.lemma_wf();
            }
            assert(j == c.len());
            self.lemma_split_done(before, ni, ai, element_id as int);
            self.lemma_split_frame(before, ni, element_id as int);
        }
    }

    /// Facts of a descent into node `n` for element `e`, from state `a` to
    /// `self`: old nodes keep their ghost data, new nodes lie under `n`,
    /// and nothing outside `n`'s subtree changes.
    pub(crate) open spec fn descent_frame(&self, a: Self, n: int, e: int) -> bool {
        &&& self.wf_structure()
        &&& self.placed_except(e)
        &&& self.half_placed(e)
        &&& self.elm_rects == a.elm_rects
        &&& self.data == a.data
        &&& self.root_rect == a.root_rect
        &&& self.max_depth == a.max_depth
        &&& self.elements_per_node == a.elements_per_node
        &&& self.query_tmp_buffer == a.query_tmp_buffer
        &&& self.element_nodes.slots() >= a.element_nodes.slots()
        &&& self.keeps(a)
        &&& forall|i: int| #[trigger] self.live(i) && !a.live(i) ==> self.under(i, n)
        &&& forall|i: int| a.live(i) && !a.under(i, n) ==> #[trigger] self.nodes@[i] == a.nodes@[i]
        &&& forall|l: int, e2: int| a.is_leaf(l) && !a.under(l, n) ==> #[trigger] self.leaf_has(l, e2) == a.leaf_has(l, e2)
    }

    /// Invariant of the walk over the children of branch `n`, after the
    /// first `k` children: the subtrees of those children are done, the
    /// others untouched.
    #[verifier::opaque]
    pub(crate) open spec fn branch_inv(&self, s0: Self, n: int, e: int, k: int, ok: bool) -> bool {
        let f = s0.fc(n);
        &&& self.descent_frame(s0, n, e)
        &&& self.nodes@[n] == s0.nodes@[n]
        &&& forall|i: int| #[trigger] self.live(i) && !s0.live(i) ==> self.kid_node(i, n) < f + k && i != n
        &&& forall|i: int| s0.live(i) && !(s0.under(i, n) && i != n && s0.kid_node(i, n) < f + k) ==> #[trigger] self.nodes@[i]
            == s0.nodes@[i]
        &&& forall|l: int, e2: int| s0.is_leaf(l) && !(s0.under(l, n) && l != n && s0.kid_node(l, n) < f + k) ==> #[trigger] self.leaf_has(l, e2)
            == s0.leaf_has(l, e2)
        &&& ok ==> forall|l: int|
            #[trigger] self.is_leaf(l) && self.under(l, n) && l != n && self.kid_node(l, n) < f + k && overlaps(self.region@[l], self.erect(e))
                ==> self.leaf_has(l, e)
        &&& forall|l: int| #[trigger] self.is_leaf(l) && self.under(l, n) && l != n && self.kid_node(l, n) >= f + k ==> !self.leaf_has(l, e)
    }

    proof fn lemma_descent_refl(&self, n: int, e: int)
        requires
            self.wf_structure(),
            self.placed_except(e),
            self.half_placed(e),
        ensures
            self.descent_frame(*self, n, e),
    {
    }

    proof fn lemma_split_frame(&self, before: Self, n: int, e: int)
        requires
            self.element_nodes.slots() >= before.element_nodes.slots(),
            before.wf_structure(),
            before.is_leaf(n),
            self.wf_structure(),
            self.placed_except(e),
            self.half_placed(e),
            self.elm_rects == before.elm_rects,
            self.data == before.data,
            self.root_rect == before.root_rect,
            self.max_depth == before.max_depth,
            self.elements_per_node == before.elements_per_node,
            self.query_tmp_buffer == before.query_tmp_buffer,
            self.is_branch(n),
            self.grows_by(before, self.fc(n)),
            forall|i: int| before.live(i) && i != n ==> #[trigger] self.nodes@[i] == before.nodes@[i],
            forall|l: int, e2: int| before.is_leaf(l) && l != n ==> #[trigger] self.leaf_has(l, e2) == before.leaf_has(l, e2),
            forall|k: int| 0 <= k < 4 ==> #[trigger] self.is_leaf(self.fc(n) + k) && !self.leaf_has(self.fc(n) + k, e),
        ensures
            self.descent_frame(before, n, e),
            forall|l: int| #[trigger] self.is_leaf(l) && self.under(l, n) && l != n ==> !self.leaf_has(l, e),
    {
        self.lemma_node(n);
        before.lemma_node(n);
        assert(before.under(n, n));
        assert forall|i: int| #[trigger] self.live(i) && !before.live(i) implies self.under(i, n) by {
            let k = i - self.fc(n);
            assert(self.child_ok(n, 0) && self.child_ok(n, 1) && self.child_ok(n, 2) && self.child_ok(n, 3));
            assert(self.child_ok(n, k));
            assert(self.anc(i, 1) == self.parent@[self.anc(i, 0)]);
        }
        assert forall|l: int| #[trigger] self.is_leaf(l) && self.under(l, n) && l != n implies !self.leaf_has(l, e) by {
            self.lemma_kid(l, n);
            let c = self.kid_node(l, n);
            let k = c - self.fc(n);
            assert(self.is_leaf(self.fc(n) + k));
            if l != c {
                self.lemma_under_child(l, c);
            }
        }
    }

    /// Adds element `e` to leaf `n`, which has room for it (or cannot be
    /// split).
    fn leaf_insert(&mut self, element_id: i32, node_index: i32) -> (ok: bool)
        requires
            old(self).wf_structure(),
            old(self).placed_except(element_id as int),
            old(self).half_placed(element_id as int),
            old(self).elm_rects@.contains_key(element_id as int),
            old(self).is_leaf(node_index as int),
            overlaps(old(self).region@[node_index as int], old(self).erect(element_id as int)),
            !old(self).leaf_has(node_index as int, element_id as int),
            old(self).element_nodes.free_chain().len() > 0 || old(self).element_nodes.slots() < i32::MAX,
        ensures
            ok,
            final(self).descent_frame(*old(self), node_index as int, element_id as int),
            final(self).element_nodes.slots() <= old(self).element_nodes.slots() + 1,
            final(self).nodes.slots() == old(self).nodes.slots(),
            final(self).nodes@[node_index as int].count == old(self).nodes@[node_index as int].count + 1,
            forall|l: int| #[trigger] final(self).is_leaf(l) && final(self).under(l, node_index as int) ==> l == node_index,
            final(self).nodes@.dom() == old(self).nodes@.dom(),
            final(self).nodes.free_chain() == old(self).nodes.free_chain(),
            forall|l: int|
                #[trigger] final(self).is_leaf(l) && final(self).under(l, node_index as int) && overlaps(final(self).region@[l], final(self).erect(element_id as int))
                    ==> final(self).leaf_has(l, element_id as int),
    {
        let ghost o = *self;
        let ghost n = node_index as int;
        let ghost e = element_id as int;
        self.leaf_prepend(node_index, element_id);
        proof {
            o.lemma_node(n);
            assert(o.under(n, n));
            assert(self.keeps(o));
            reveal(QuadTree::placed_except);
            assert forall|e2: int| #[trigger] self.elm_rects@.contains_key(e2) && e2 != e implies self.placed(e2) by {
                assert(o.placed(e2));
                assert forall|l: int| #[trigger] self.is_leaf(l) implies (self.leaf_has(l, e2) <==> overlaps(self.region@[l], self.erect(e2))) by {
                    assert(o.is_leaf(l));
                }
            }
            assert forall|l: int| #[trigger] self.is_leaf(l) && self.leaf_has(l, e) implies overlaps(self.region@[l], self.erect(e)) by {
                assert(o.is_leaf(l));
            }
            assert forall|i: int| o.live(i) && !o.under(i, n) implies #[trigger] self.nodes@[i] == o.nodes@[i] by {}
            assert forall|l: int, e2: int| o.is_leaf(l) && !o.under(l, n) implies #[trigger] self.leaf_has(l, e2) == o.leaf_has(l, e2) by {}
            assert forall|l: int|
                #[trigger] self.is_leaf(l) && self.under(l, n) && overlaps(self.region@[l], self.erect(e)) implies self.leaf_has(l, e) by {
                self.lemma_under_stable(o, l, n);
                if l != n {
                    o.lemma_under_child(l, n);
                }
            }
            assert forall|l: int| #[trigger] self.is_leaf(l) && self.under(l, n) implies l == n by {
                self.lemma_under_stable(o, l, n);
                if l != n {
                    o.lemma_under_child(l, n);
                }
            }
        }
        true
    }

    proof fn lemma_inv_start(&self, n: int, e: int)
        requires
            self.wf_structure(),
            self.placed_except(e),
            self.half_placed(e),
            self.is_branch(n),
            forall|l: int| #[trigger] self.is_leaf(l) && self.under(l, n) && l != n ==> !self.leaf_has(l, e),
        ensures
            self.branch_inv(*self, n, e, 0, true),
    {
        reveal(QuadTree::branch_inv);
        assert forall|l: int|
            #[trigger] self.is_leaf(l) && self.under(l, n) && l != n && self.kid_node(l, n) < self.fc(n) + 0 && overlaps(self.region@[l], self.erect(e))
                implies self.leaf_has(l, e) by {
            self.lemma_kid(l, n);
        }
    }

    proof fn lemma_before_child(&self, s0: Self, n: int, e: int, k: int, ok: bool)
        requires
            s0.wf_structure(),
            s0.is_branch(n),
            s0.elm_rects@.contains_key(e),
            0 <= k < 4,
            self.branch_inv(s0, n, e, k, ok),
        ensures
            self.wf_structure(),
            self.placed_except(e),
            self.half_placed(e),
            self.elm_rects@.contains_key(e),
            self.erect(e) == s0.erect(e),
            self.max_depth == s0.max_depth,
            self.is_branch(n),
            self.fc(n) == s0.fc(n),
            self.live(s0.fc(n) + k),
            self.region@[s0.fc(n) + k] == quad(s0.region@[n], k),
            self.depth@[s0.fc(n) + k] == s0.depth@[n] + 1,
            forall|l: int| #[trigger] self.is_leaf(l) && self.under(l, s0.fc(n) + k) ==> !self.leaf_has(l, e),
    {
        reveal(QuadTree::branch_inv);
        s0.lemma_node(n);
        assert(s0.live(n));
        assert(self.live(n));
        assert(s0.child_ok(n, 0) && s0.child_ok(n, 1) && s0.child_ok(n, 2) && s0.child_ok(n, 3));
        assert(s0.child_ok(n, k));
        assert(s0.live(s0.fc(n) + k));
        assert forall|l: int| #[trigger] self.is_leaf(l) && self.under(l, s0.fc(n) + k) implies !self.leaf_has(l, e) by {
            self.lemma_kid_of_child(l, n, k);
        }
    }

    proof fn lemma_after_child(&self, s: Self, s0: Self, n: int, e: int, k: int, ok: bool, r: bool)
        requires
            s0.wf_structure(),
            s0.is_branch(n),
            0 <= k < 4,
            s.branch_inv(s0, n, e, k, ok),
            s.is_branch(n),
            s.fc(n) == s0.fc(n),
            s.live(s0.fc(n) + k),
            self.descent_frame(s, s0.fc(n) + k, e),
            r ==> forall|l: int|
                #[trigger] self.is_leaf(l) && self.under(l, s0.fc(n) + k) && overlaps(self.region@[l], self.erect(e)) ==> self.leaf_has(l, e),
        ensures
            self.branch_inv(s0, n, e, k + 1, ok && r),
    {
        reveal(QuadTree::branch_inv);
        let f = s0.fc(n);
        let c = f + k;
        s0.lemma_node(n);
        assert(s0.live(n));
        assert(s.live(n));
        s.lemma_node(n);
        // `n` is not under its own child
        assert(s.depth@[c] == s.depth@[n] + 1) by {
            assert(s.child_ok(n, 0) && s.child_ok(n, 1) && s.child_ok(n, 2) && s.child_ok(n, 3));
            assert(s.child_ok(n, k));
        }
        assert(!s.under(n, c));
        assert(self.nodes@[n] == s.nodes@[n]);
        assert(self.is_branch(n) && self.fc(n) == f);
        // a node under `c` in `s` has `c` as its kid
        assert forall|i: int| #[trigger] s.live(i) && s.under(i, c) implies s.under(i, n) && i != n && s.kid_node(i, n) == c by {
            s.lemma_kid_of_child(i, n, k);
        }
        // descent frame from s0
        assert(self.keeps(s0));
        assert forall|i: int| #[trigger] self.live(i) && !s0.live(i) implies self.under(i, n) && self.kid_node(i, n) < f + k + 1 && i != n by {
            if s.live(i) {
                self.lemma_under_stable(s, i, n);
                s.lemma_kid(i, n);
            } else {
                self.lemma_kid_of_child(i, n, k);
            }
        }
        assert forall|i: int| s0.live(i) && !(s0.under(i, n) && i != n && s0.kid_node(i, n) < f + k + 1) implies #[trigger] self.nodes@[i]
            == s0.nodes@[i] by {
            s.lemma_under_stable(s0, i, n);
            if s.under(i, c) {
                s.lemma_under_stable(s0, i, c);
            }
        }
        assert forall|i: int| s0.live(i) && !s0.under(i, n) implies #[trigger] self.nodes@[i] == s0.nodes@[i] by {
            s.lemma_under_stable(s0, i, n);
        }
        assert forall|l: int, e2: int| s0.is_leaf(l) && !(s0.under(l, n) && l != n && s0.kid_node(l, n) < f + k + 1) implies #[trigger] self.leaf_has(l, e2)
            == s0.leaf_has(l, e2) by {
            s.lemma_under_stable(s0, l, n);
            assert(s.is_leaf(l));
            assert(s.leaf_has(l, e2) == s0.leaf_has(l, e2));
        }
        assert forall|l: int, e2: int| s0.is_leaf(l) && !s0.under(l, n) implies #[trigger] self.leaf_has(l, e2) == s0.leaf_has(l, e2) by {
            s.lemma_under_stable(s0, l, n);
            assert(s.is_leaf(l));
            assert(s.leaf_has(l, e2) == s0.leaf_has(l, e2));
        }
        assert(self.descent_frame(s0, n, e));
        if ok && r {
            assert forall|l: int|
                #[trigger] self.is_leaf(l) && self.under(l, n) && l != n && self.kid_node(l, n) < f + k + 1 && overlaps(self.region@[l], self.erect(e))
                    implies self.leaf_has(l, e) by {
                self.lemma_kid(l, n);
                if self.kid_node(l, n) == c {
                } else {
                    if !s.live(l) {
                        self.lemma_kid_of_child(l, n, k);
                    }
                    self.lemma_under_stable(s, l, n);
                    if s.under(l, c) {
                        s.lemma_kid_of_child(l, n, k);
                    }
                    assert(self.nodes@[l] == s.nodes@[l]);
                    assert(s.is_leaf(l));
                    assert(s.leaf_has(l, e));
                }
            }
        }
        assert forall|l: int| #[trigger] self.is_leaf(l) && self.under(l, n) && l != n && self.kid_node(l, n) >= f + k + 1 implies !self.leaf_has(l, e) by {
            self.lemma_kid(l, n);
            if !s.live(l) {
                self.lemma_kid_of_child(l, n, k);
            }
            self.lemma_under_stable(s, l, n);
            if s.under(l, c) {
                s.lemma_kid_of_child(l, n, k);
            }
            assert(self.nodes@[l] == s.nodes@[l]);
            assert(s.is_leaf(l));
        }
    }

    proof fn lemma_skip_child(&self, s0: Self, n: int, e: int, k: int, ok: bool)
        requires
            s0.wf_structure(),
            s0.is_branch(n),
            0 <= k < 4,
            self.branch_inv(s0, n, e, k, ok),
            !overlaps(quad(s0.region@[n], k), s0.erect(e)),
        ensures
            self.branch_inv(s0, n, e, k + 1, ok),
    {
        reveal(QuadTree::branch_inv);
        let f = s0.fc(n);
        s0.lemma_node(n);
        assert(s0.child_ok(n, 0) && s0.child_ok(n, 1) && s0.child_ok(n, 2) && s0.child_ok(n, 3));
        assert(s0.child_ok(n, k));
        assert(s0.live(n));
        assert(self.live(n));
        assert(self.is_branch(n) && self.fc(n) == f);
        if ok {
            assert forall|l: int|
                #[trigger] self.is_leaf(l) && self.under(l, n) && l != n && self.kid_node(l, n) < f + k + 1 && overlaps(self.region@[l], self.erect(e))
                    implies self.leaf_has(l, e) by {
                self.lemma_kid(l, n);
                if self.kid_node(l, n) == f + k {
                    lemma_overlaps_within(self.region@[l], self.region@[f + k], self.erect(e));
                }
            }
        }
        assert forall|i: int| #[trigger] self.live(i) && !s0.live(i) implies self.kid_node(i, n) < f + k + 1 && i != n by {}
    }

    proof fn lemma_branch_done(&self, s0: Self, o: Self, n: int, e: int, ok: bool)
        requires
            o.wf_structure(),
            o.live(n),
            s0.descent_frame(o, n, e),
            s0.is_branch(n),
            self.branch_inv(s0, n, e, 4, ok),
        ensures
            self.descent_frame(o, n, e),
            ok ==> forall|l: int|
                #[trigger] self.is_leaf(l) && self.under(l, n) && overlaps(self.region@[l], self.erect(e)) ==> self.leaf_has(l, e),
    {
        reveal(QuadTree::branch_inv);
        assert(self.keeps(o));
        assert forall|i: int| #[trigger] self.live(i) && !o.live(i) implies self.under(i, n) by {
            if s0.live(i) {
                self.lemma_under_stable(s0, i, n);
            }
        }
        assert forall|i: int| o.live(i) && !o.under(i, n) implies #[trigger] self.nodes@[i] == o.nodes@[i] by {
            s0.lemma_under_stable(o, i, n);
        }
        assert forall|l: int, e2: int| o.is_leaf(l) && !o.under(l, n) implies #[trigger] self.leaf_has(l, e2) == o.leaf_has(l, e2) by {
            s0.lemma_under_stable(o, l, n);
            assert(s0.is_leaf(l));
        }
        if ok {
            assert forall|l: int|
                #[trigger] self.is_leaf(l) && self.under(l, n) && overlaps(self.region@[l], self.erect(e)) implies self.leaf_has(l, e) by {
                assert(self.nodes@[n] == s0.nodes@[n]);
                assert(l != n);
                self.lemma_kid(l, n);
            }
        }
    }

    /// A leaf that holds `e` below the depth limit holds at most
    /// `elements_per_node` entries.
    pub(crate) open spec fn cap_ok(&self, l: int, e: int) -> bool {
        self.is_leaf(l) && self.leaf_has(l, e) && self.depth@[l] < MAX_DEPTH ==> self.nodes@[l].count <= self.elements_per_node
    }

    /// The capacity bound holds in the subtrees of the first `k` children.
    pub(crate) open spec fn cap_inv(&self, s0: Self, n: int, e: int, k: int) -> bool {
        forall|l: int| #[trigger] self.is_leaf(l) && self.under(l, n) && l != n && self.kid_node(l, n) < s0.fc(n) + k ==> self.cap_ok(l, e)
    }

    proof fn lemma_cap_after_child(&self, s: Self, s0: Self, n: int, e: int, k: int, ok: bool)
        requires
            s0.wf_structure(),
            s0.is_branch(n),
            0 <= k < 4,
            s.branch_inv(s0, n, e, k, ok),
            s.cap_inv(s0, n, e, k),
            s.is_branch(n),
            s.fc(n) == s0.fc(n),
            s.live(s0.fc(n) + k),
            self.descent_frame(s, s0.fc(n) + k, e),
            forall|l: int| #[trigger] self.is_leaf(l) && self.under(l, s0.fc(n) + k) ==> self.cap_ok(l, e),
        ensures
            self.cap_inv(s0, n, e, k + 1),
    {
        reveal(QuadTree::branch_inv);
        let f = s0.fc(n);
        let c = f + k;
        s0.lemma_node(n);
        assert(s0.live(n));
        assert(s.live(n));
        s.lemma_node(n);
        assert(s.depth@[c] == s.depth@[n] + 1) by {
            assert(s.child_ok(n, 0) && s.child_ok(n, 1) && s.child_ok(n, 2) && s.child_ok(n, 3));
            assert(s.child_ok(n, k));
        }
        assert(!s.under(n, c));
        assert(self.nodes@[n] == s.nodes@[n]);
        assert forall|l: int| #[trigger] self.is_leaf(l) && self.under(l, n) && l != n && self.kid_node(l, n) < s0.fc(n) + k + 1 implies self.cap_ok(l, e) by {
            self.lemma_kid(l, n);
            if self.kid_node(l, n) != c {
                if !s.live(l) {
                    self.lemma_kid_of_child(l, n, k);
                }
                self.lemma_under_stable(s, l, n);
                if s.under(l, c) {
                    s.lemma_kid_of_child(l, n, k);
                }
                assert(self.nodes@[l] == s.nodes@[l]);
                assert(s.is_leaf(l));
                assert(s.cap_ok(l, e));
                assert(self.leaf_has(l, e) == s.leaf_has(l, e));
            }
        }
    }

    proof fn lemma_cap_skip(&self, s0: Self, n: int, e: int, k: int, ok: bool)
        requires
            s0.wf_structure(),
            s0.is_branch(n),
            0 <= k < 4,
            self.branch_inv(s0, n, e, k, ok),
            self.cap_inv(s0, n, e, k),
            !overlaps(quad(s0.region@[n], k), s0.erect(e)),
        ensures
            self.cap_inv(s0, n, e, k + 1),
    {
        reveal(QuadTree::branch_inv);
        let f = s0.fc(n);
        s0.lemma_node(n);
        assert(s0.child_ok(n, 0) && s0.child_ok(n, 1) && s0.child_ok(n, 2) && s0.child_ok(n, 3));
        assert(s0.child_ok(n, k));
        assert(s0.live(n));
        assert(self.live(n));
        assert forall|l: int| #[trigger] self.is_leaf(l) && self.under(l, n) && l != n && self.kid_node(l, n) < f + k + 1 implies self.cap_ok(l, e) by {
            self.lemma_kid(l, n);
            if self.kid_node(l, n) == f + k && self.leaf_has(l, e) {
                assert(overlaps(self.region@[l], self.erect(e)));
                lemma_overlaps_within(self.region@[l], self.region@[f + k], self.erect(e));
            }
        }
    }

    proof fn lemma_cap_done(&self, s0: Self, n: int, e: int, ok: bool)
        requires
            s0.wf_structure(),
            s0.is_branch(n),
            self.branch_inv(s0, n, e, 4, ok),
            self.cap_inv(s0, n, e, 4),
        ensures
            forall|l: int| #[trigger] self.is_leaf(l) && self.under(l, n) ==> self.cap_ok(l, e),
    {
        reveal(QuadTree::branch_inv);
        s0.lemma_node(n);
        assert(s0.live(n));
        assert forall|l: int| #[trigger] self.is_leaf(l) && self.under(l, n) implies self.cap_ok(l, e) by {
            assert(self.nodes@[n] == s0.nodes@[n]);
            assert(l != n);
            self.lemma_kid(l, n);
        }
    }

    /// Leaf `i` of `o` is still a leaf here unless it was full above the
    /// depth limit.
    pub(crate) open spec fn keeps_leaf(&self, o: Self, i: int) -> bool {
        o.is_leaf(i) && (o.nodes@[i].count < o.elements_per_node || o.depth@[i] >= MAX_DEPTH) ==> self.is_leaf(i)
    }

    /// Leaf `l`, if above the depth limit, holds at most `elements_per_node`
    /// entries.
    pub(crate) open spec fn cap_all_ok(&self, l: int) -> bool {
        self.is_leaf(l) && self.depth@[l] < MAX_DEPTH ==> self.nodes@[l].count <= self.elements_per_node
    }

    proof fn lemma_rule_step(&self, s: Self, s0: Self, n: int, e: int, k: int, ok: bool, q: bool)
        requires
            s0.wf_structure(),
            s0.is_branch(n),
            0 <= k < 4,
            s.branch_inv(s0, n, e, k, ok),
            s.is_branch(n),
            s.fc(n) == s0.fc(n),
            s.live(s0.fc(n) + k),
            self.descent_frame(s, s0.fc(n) + k, e),
            forall|i: int| #[trigger] s0.is_leaf(i) ==> s.keeps_leaf(s0, i),
            forall|i: int| #[trigger] s.is_leaf(i) ==> self.keeps_leaf(s, i),
            q ==> forall|l: int| #[trigger] s.is_leaf(l) && s.under(l, n) && l != n ==> s.cap_all_ok(l),
            q ==> (forall|l: int| #[trigger] s.is_leaf(l) && s.under(l, s0.fc(n) + k) ==> s.cap_all_ok(l)) ==> (forall|l: int|
                #[trigger] self.is_leaf(l) && self.under(l, s0.fc(n) + k) ==> self.cap_all_ok(l)),
        ensures
            forall|i: int| #[trigger] s0.is_leaf(i) ==> self.keeps_leaf(s0, i),
            q ==> forall|l: int| #[trigger] self.is_leaf(l) && self.under(l, n) && l != n ==> self.cap_all_ok(l),
    {
        reveal(QuadTree::branch_inv);
        let f = s0.fc(n);
        let c = f + k;
        s0.lemma_node(n);
        assert(s0.live(n));
        assert(s.live(n));
        s.lemma_node(n);
        assert(s.depth@[c] == s.depth@[n] + 1) by {
            assert(s.child_ok(n, 0) && s.child_ok(n, 1) && s.child_ok(n, 2) && s.child_ok(n, 3));
            assert(s.child_ok(n, k));
        }
        assert(!s.under(n, c));
        assert(self.nodes@[n] == s.nodes@[n]);
        assert forall|i: int| #[trigger] s0.is_leaf(i) implies self.keeps_leaf(s0, i) by {
            if s0.nodes@[i].count < s0.elements_per_node || s0.depth@[i] >= MAX_DEPTH {
                assert(s.keeps_leaf(s0, i));
                assert(s.is_leaf(i));
                if s.under(i, c) {
                    s.lemma_under_stable(s0, i, c);
                    assert(s0.under(i, c));
                    s0.lemma_kid_of_child(i, n, k);
                    assert(s.nodes@[i] == s0.nodes@[i]);
                    assert(self.keeps_leaf(s, i));
                } else {
                    assert(self.nodes@[i] == s.nodes@[i]);
                }
            }
        }
        if q {
            assert forall|l: int| #[trigger] s.is_leaf(l) && s.under(l, c) implies s.cap_all_ok(l) by {
                s.lemma_kid_of_child(l, n, k);
            }
            assert forall|l: int| #[trigger] self.is_leaf(l) && self.under(l, n) && l != n implies self.cap_all_ok(l) by {
                self.lemma_kid(l, n);
                if self.kid_node(l, n) != c {
                    if !s.live(l) {
                        self.lemma_kid_of_child(l, n, k);
                    }
                    self.lemma_under_stable(s, l, n);
                    if s.under(l, c) {
                        s.lemma_kid_of_child(l, n, k);
                    }
                    assert(self.nodes@[l] == s.nodes@[l]);
                    assert(s.is_leaf(l));
                    assert(s.cap_all_ok(l));
                }
            }
        }
    }

    proof fn lemma_split_capall(&self, o: Self, n: int)
        requires
            o.wf_structure(),
            o.is_leaf(n),
            o.cap_all_ok(n),
            o.depth@[n] < MAX_DEPTH,
            self.wf_structure(),
            self.is_branch(n),
            self.elements_per_node == o.elements_per_node,
            forall|kk: int| 0 <= kk < 4 ==> #[trigger] self.is_leaf(self.fc(n) + kk),
            forall|kk: int| 0 <= kk < 4 ==> #[trigger] self.nodes@[self.fc(n) + kk].count <= o.nodes@[n].count,
        ensures
            forall|l: int| #[trigger] self.is_leaf(l) && self.under(l, n) && l != n ==> self.cap_all_ok(l),
    {
        assert forall|l: int| #[trigger] self.is_leaf(l) && self.under(l, n) && l != n implies self.cap_all_ok(l) by {
            self.lemma_kid(l, n);
            let c = self.kid_node(l, n);
            let kk = c - self.fc(n);
            assert(self.is_leaf(self.fc(n) + kk));
            assert(self.nodes@[self.fc(n) + kk].count <= o.nodes@[n].count);
            if l != c {
                self.lemma_under_child(l, c);
            }
        }
    }

    proof fn lemma_rule_done(&self, s0: Self, o: Self, n: int, e: int, ok: bool, q: bool)
        requires
            o.wf_structure(),
            o.live(n),
            s0.wf_structure(),
            s0.is_branch(n),
            self.branch_inv(s0, n, e, 4, ok),
            s0.elements_per_node == o.elements_per_node,
            forall|i: int| #[trigger] s0.is_leaf(i) ==> self.keeps_leaf(s0, i),
            q ==> forall|l: int| #[trigger] self.is_leaf(l) && self.under(l, n) && l != n ==> self.cap_all_ok(l),
            o.is_leaf(n) ==> o.nodes@[n].count >= o.elements_per_node && o.depth@[n] < MAX_DEPTH,
            forall|i: int| o.live(i) && i != n ==> #[trigger] s0.nodes@[i] == o.nodes@[i],
            s0.keeps(o),
        ensures
            forall|i: int| #[trigger] o.is_leaf(i) ==> self.keeps_leaf(o, i),
            q ==> forall|l: int| #[trigger] self.is_leaf(l) && self.under(l, n) ==> self.cap_all_ok(l),
    {
        reveal(QuadTree::branch_inv);
        assert forall|i: int| #[trigger] o.is_leaf(i) implies self.keeps_leaf(o, i) by {
            if i != n {
                assert(o.live(i));
                assert(s0.nodes@[i] == o.nodes@[i]);
                assert(s0.is_leaf(i));
                assert(self.keeps_leaf(s0, i));
            }
        }
        if q {
            assert forall|l: int| #[trigger] self.is_leaf(l) && self.under(l, n) implies self.cap_all_ok(l) by {
                s0.lemma_node(n);
                assert(s0.live(n));
                assert(self.nodes@[n] == s0.nodes@[n]);
                assert(l != n);
            }
        }
    }

    /// Node `i`, new since `o`, hangs under a leaf of `o` that was full
    /// above the depth limit, or under a node that is new as well.
    pub(crate) open spec fn born_of_split(&self, o: Self, i: int) -> bool {
        let p = self.parent@[i];
        (o.is_leaf(p) && o.nodes@[p].count >= o.elements_per_node && o.depth@[p] < MAX_DEPTH) || !o.live(p)
    }

    proof fn lemma_born_step(&self, s: Self, s0: Self, o: Self, n: int, e: int, k: int, ok: bool)
        requires
            s0.wf_structure(),
            s0.is_branch(n),
            0 <= k < 4,
            s.branch_inv(s0, n, e, k, ok),
            s.is_branch(n),
            s.fc(n) == s0.fc(n),
            s.live(s0.fc(n) + k),
            self.descent_frame(s, s0.fc(n) + k, e),
            forall|i: int| #[trigger] self.live(i) && !s.live(i) ==> self.born_of_split(s, i),
            forall|i: int| #[trigger] s.live(i) && !o.live(i) ==> s.born_of_split(o, i),
            forall|i: int| o.live(i) && i != n ==> #[trigger] s0.nodes@[i] == o.nodes@[i],
            s0.keeps(o),
            s0.elements_per_node == o.elements_per_node,
        ensures
            forall|i: int| #[trigger] self.live(i) && !o.live(i) ==> self.born_of_split(o, i),
    {
        reveal(QuadTree::branch_inv);
        let c = s0.fc(n) + k;
        assert forall|i: int| #[trigger] self.live(i) && !o.live(i) implies self.born_of_split(o, i) by {
            if s.live(i) {
                assert(s.born_of_split(o, i));
                assert(self.parent@[i] == s.parent@[i]);
            } else {
                let p = self.parent@[i];
                assert(self.born_of_split(s, i));
                if s.live(p) && o.live(p) {
                    assert(s.is_leaf(p));
                    assert(self.under(i, c));
                    self.lemma_node(i);
                    assert(i != c);
                    self.lemma_node(c);
                    assert(self.depth@[i] > self.depth@[c]);
                    self.lemma_anc_compose(i, 1, (self.depth@[i] - self.depth@[c] - 1) as nat);
                    assert(self.anc(i, 1) == self.parent@[self.anc(i, 0)]);
                    self.lemma_node(p);
                    assert(self.depth@[i] == self.depth@[p] + 1) by {
                        self.lemma_child(p, i);
                    }
                    assert(self.under(p, c));
                    self.lemma_under_stable(s, p, c);
                    assert(s.under(p, c));
                    assert(s0.live(p));
                    s0.lemma_node(n);
                    assert(s0.child_ok(n, 0) && s0.child_ok(n, 1) && s0.child_ok(n, 2) && s0.child_ok(n, 3));
                    assert(s0.child_ok(n, k));
                    s.lemma_under_stable(s0, p, c);
                    s0.lemma_kid_of_child(p, n, k);
                    assert(s.nodes@[p] == s0.nodes@[p]);
                    assert(p != n);
                    assert(s0.nodes@[p] == o.nodes@[p]);
                }
            }
        }
    }

    /// Inserts element `e` into every leaf under node `n` whose region it
    /// overlaps, splitting full leaves on the way. Returns `false` only when
    /// the chain-entry store ran out of indices.
    fn node_insert(&mut self, element_id: i32, node_index: i32, node_rect: Rect, depth: i32) -> (ok: bool)
        requires
            old(self).wf_structure(),
            old(self).placed_except(element_id as int),
            old(self).half_placed(element_id as int),
            old(self).elm_rects@.contains_key(element_id as int),
            old(self).live(node_index as int),
            old(self).region@[node_index as int] == node_rect,
            old(self).depth@[node_index as int] == depth,
            overlaps(node_rect, old(self).erect(element_id as int)),
            forall|l: int| #[trigger] old(self).is_leaf(l) && old(self).under(l, node_index as int) ==> !old(self).leaf_has(l, element_id as int),
        ensures
            final(self).descent_frame(*old(self), node_index as int, element_id as int),
            ok ==> forall|l: int|
                #[trigger] final(self).is_leaf(l) && final(self).under(l, node_index as int) && overlaps(final(self).region@[l], final(self).erect(element_id as int))
                    ==> final(self).leaf_has(l, element_id as int),
            !ok ==> final(self).element_nodes.slots() == i32::MAX,
            final(self).element_nodes.slots() <= old(self).element_nodes.slots() + descent_calls(depth as int) * (4 * old(self).elm_rects.slots()
                + 1),
            final(self).nodes.slots() <= old(self).nodes.slots() + 4 * descent_calls(depth as int),
            old(self).element_nodes.slots() + descent_calls(depth as int) * (4 * old(self).elm_rects.slots() + 1) <= i32::MAX
                && old(self).nodes.slots() + 4 * descent_calls(depth as int) <= i32::MAX ==> ok && forall|l: int|
                #[trigger] final(self).is_leaf(l) && final(self).under(l, node_index as int) ==> final(self).cap_ok(l, element_id as int),
            forall|i: int| #[trigger] old(self).is_leaf(i) ==> final(self).keeps_leaf(*old(self), i),
            forall|i: int| #[trigger] final(self).live(i) && !old(self).live(i) ==> final(self).born_of_split(*old(self), i),
            is_suffix(old(self).nodes.free_chain(), final(self).nodes.free_chain()),
            old(self).element_nodes.slots() + descent_calls(depth as int) * (4 * old(self).elm_rects.slots() + 1) <= i32::MAX
                && old(self).nodes.slots() + 4 * descent_calls(depth as int) <= i32::MAX ==> (forall|l: int|
                #[trigger] old(self).is_leaf(l) && old(self).under(l, node_index as int) ==> old(self).cap_all_ok(l)) ==> (forall|l: int|
                #[trigger] final(self).is_leaf(l) && final(self).under(l, node_index as int) ==> final(self).cap_all_ok(l)),
        decreases MAX_DEPTH - depth,
    {
        let ghost o = *self;
        let ghost n = node_index as int;
        let ghost e = element_id as int;
        let ghost big_e = self.elm_rects.slots() as int;
        let ghost calls = descent_calls(depth as int);
        let ghost budget = calls * (4 * big_e + 1);
        proof {
            self.lemma_node(n);
            self.element_nodes.lemma_wf();
            self.nodes.lemma_wf();
            lemma_descent_calls_pos(depth as int);
            assert(budget >= 4 * big_e + 1) by (nonlinear_arith)
                requires
                    calls >= 1,
                    big_e >= 0,
                    budget == calls * (4 * big_e + 1),
            ;
        }
        let node = *self.nodes.get(node_index);
        if node.is_leaf() {
            let can_split = depth < self.max_depth && node.count >= self.elements_per_node && self.nodes.has_room_for(4)
                && (self.element_nodes.data_len() as i64) + 4 * (node.count as i64) <= i32::MAX as i64;
            if !can_split {
                if !self.element_nodes.has_room() {
                    proof {
                        self.lemma_descent_refl(n, e);
                        assert(o.nodes.free_chain().subrange(0, o.nodes.free_chain().len() as int) =~= o.nodes.free_chain());
                    }
                    return false;
                }
                proof {
                    self.lemma_count_le_elements(n);
                }
                proof {
                    assert(self.under(n, n));
                    assert(self.is_leaf(n));
                    assert(!self.leaf_has(n, e));
                }
                let r = self.leaf_insert(element_id, node_index);
                proof {
                    assert(o.nodes.free_chain().subrange(0, o.nodes.free_chain().len() as int) =~= o.nodes.free_chain());
                    assert(self.live(n));
                    assert(self.nodes@[n].count == o.nodes@[n].count + 1);
                    assert(self.is_leaf(n));
                    assert forall|i: int| #[trigger] o.is_leaf(i) implies self.keeps_leaf(o, i) by {
                        if o.under(i, n) && i != n {
                            o.lemma_under_child(i, n);
                        }
                        assert(o.live(i));
                        if !o.under(i, n) {
                            assert(self.nodes@[i] == o.nodes@[i]);
                            assert(self.live(i));
                        }
                    }
                    if o.element_nodes.slots() + budget <= i32::MAX && o.nodes.slots() + 4 * calls <= i32::MAX {
                        assert(o.nodes.slots() + 4 <= i32::MAX);
                        assert(o.element_nodes.slots() + 4 * o.nodes@[n].count <= i32::MAX);
                        assert(depth >= MAX_DEPTH || o.nodes@[n].count < o.elements_per_node);
                    }
                    if o.element_nodes.slots() + budget <= i32::MAX && o.nodes.slots() + 4 * calls <= i32::MAX && (forall|l2: int|
                        #[trigger] o.is_leaf(l2) && o.under(l2, n) ==> o.cap_all_ok(l2)) {
                        assert(o.under(n, n));
                        assert(o.cap_all_ok(n));
                        assert(o.live(n));
                        assert forall|l: int| #[trigger] self.is_leaf(l) && self.under(l, n) implies self.cap_all_ok(l) by {
                            assert(l == n);
                        }
                    }
                }
                return r;
            }
            proof {
                assert(self.under(n, n));
                assert(self.is_leaf(n));
                assert(!self.leaf_has(n, e));
                self.lemma_count_le_elements(n);
            }
            self.split(node_index, node_rect, depth, element_id);
        } else {
            proof {
                self.lemma_descent_refl(n, e);
            }
        }
        let ghost s0 = *self;
        let ghost cc = descent_calls(depth + 1);
        let ghost x = cc * (4 * big_e + 1);
        proof {
            self.lemma_inv_start(n, e);
            self.lemma_node(n);
            lemma_descent_calls_pos(depth + 1);
            assert(x >= 0) by (nonlinear_arith)
                requires
                    cc >= 1,
                    big_e >= 0,
                    x == cc * (4 * big_e + 1),
            ;
            assert(budget == 4 * big_e + 1 + 4 * x) by (nonlinear_arith)
                requires
                    calls == 1 + 4 * cc,
                    budget == calls * (4 * big_e + 1),
                    x == cc * (4 * big_e + 1),
            ;
        }
        let node = *self.nodes.get(node_index);
        let locations = node_rect.location_quads();
        let er = self.elm_rects.get(element_id).rect;
        let ghost hypo = o.element_nodes.slots() + budget <= i32::MAX && o.nodes.slots() + 4 * calls <= i32::MAX;
        let ghost oall = forall|l: int| #[trigger] o.is_leaf(l) && o.under(l, n) ==> o.cap_all_ok(l);
        let ghost fit = s0.element_nodes.slots() + 4 * x <= i32::MAX && s0.nodes.slots() + 16 * cc <= i32::MAX;
        let ghost q = fit && (forall|l: int| #[trigger] s0.is_leaf(l) && s0.under(l, n) && l != n ==> s0.cap_all_ok(l));
        proof {
            if hypo && oall {
                assert(fit);
                if o.is_leaf(n) {
                    assert(o.under(n, n));
                    self.lemma_split_capall(o, n);
                } else {
                    assert(*self == o);
                }
                assert(q);
            }
            if !o.is_leaf(n) {
                assert(*self == o);
                assert(o.nodes.free_chain().subrange(0, o.nodes.free_chain().len() as int) =~= o.nodes.free_chain());
            } else {
                assert forall|i: int| #[trigger] self.live(i) && !o.live(i) implies self.born_of_split(o, i) by {
                    let k = i - self.fc(n);
                    self.lemma_node(n);
                    assert(self.child_ok(n, 0) && self.child_ok(n, 1) && self.child_ok(n, 2) && self.child_ok(n, 3));
                    assert(self.child_ok(n, k));
                }
            }
        }
        let mut ok = true;
        let mut k: i32 = 0;
        while k < 4
            invariant
                0 <= k <= 4,
                n == node_index as int,
                e == element_id as int,
                node == s0.nodes@[n],
                0 <= node.first_child,
                node.first_child + 4 <= i32::MAX,
                er == s0.erect(e),
                forall|j: int| 0 <= j < 4 ==> locations@[j] == #[trigger] quad(node_rect, j),
                s0.wf_structure(),
                s0.is_branch(n),
                s0.region@[n] == node_rect,
                s0.depth@[n] == depth,
                depth < s0.max_depth,
                s0.max_depth == o.max_depth,
                s0.elm_rects@.contains_key(e),
                s0.descent_frame(o, n, e),
                self.branch_inv(s0, n, e, k as int, ok),
                forall|i: int| #[trigger] s0.is_leaf(i) ==> self.keeps_leaf(s0, i),
                forall|i: int| #[trigger] self.live(i) && !o.live(i) ==> self.born_of_split(o, i),
                is_suffix(o.nodes.free_chain(), self.nodes.free_chain()),
                q == (fit && (forall|l: int| #[trigger] s0.is_leaf(l) && s0.under(l, n) && l != n ==> s0.cap_all_ok(l))),
                fit == (s0.element_nodes.slots() + 4 * x <= i32::MAX && s0.nodes.slots() + 16 * cc <= i32::MAX),
                q ==> forall|l: int| #[trigger] self.is_leaf(l) && self.under(l, n) && l != n ==> self.cap_all_ok(l),
                hypo && oall ==> q,
                o.is_leaf(n) ==> o.nodes@[n].count >= o.elements_per_node && o.depth@[n] < MAX_DEPTH,
                forall|i: int| o.live(i) && i != n ==> #[trigger] s0.nodes@[i] == o.nodes@[i],
                s0.keeps(o),
                s0.elements_per_node == o.elements_per_node,
                o.wf_structure(),
                o.live(n),
                !ok ==> self.element_nodes.slots() == i32::MAX,
                self.elm_rects == o.elm_rects,
                big_e == o.elm_rects.slots(),
                x >= 0,
                x == cc * (4 * big_e + 1),
                cc == descent_calls(depth + 1),
                cc >= 1,
                self.element_nodes.slots() + (4 - k) * x <= s0.element_nodes.slots() + 4 * x,
                self.nodes.slots() + (4 - k) * 4 * cc <= s0.nodes.slots() + 16 * cc,
                s0.element_nodes.slots() + 4 * x <= i32::MAX && s0.nodes.slots() + 16 * cc <= i32::MAX ==> ok && self.cap_inv(s0, n, e, k as int),
            decreases 4 - k,
        {
            let ghost s = *self;
            if locations[k as usize].intersect(er) {
                proof {
                    self.lemma_before_child(s0, n, e, k as int, ok);
                }
                proof {
                    assert((4 - k) * x >= x) by (nonlinear_arith)
                        requires
                            k < 4,
                            x >= 0,
                    ;
                    assert((4 - k) * 4 * cc >= 4 * cc) by (nonlinear_arith)
                        requires
                            k < 4,
                            cc >= 0,
                    ;
                }
                let r = self.node_insert(element_id, node.first_child + k, locations[k as usize], depth + 1);
                proof {
                    if s0.element_nodes.slots() + 4 * x <= i32::MAX && s0.nodes.slots() + 16 * cc <= i32::MAX {
                        self.lemma_cap_after_child(s, s0, n, e, k as int, ok);
                    }
                    self.lemma_after_child(s, s0, n, e, k as int, ok, r);
                    self.lemma_rule_step(s, s0, n, e, k as int, ok, q);
                    self.lemma_born_step(s, s0, o, n, e, k as int, ok);
                    lemma_suffix_trans(o.nodes.free_chain(), s.nodes.free_chain(), self.nodes.free_chain());
                    self.element_nodes.lemma_wf();
                    assert((4 - k) * x == x + (4 - (k + 1)) * x) by (nonlinear_arith);
                    assert((4 - k) * 4 * cc == 4 * cc + (4 - (k + 1)) * 4 * cc) by (nonlinear_arith);
                }
                ok = ok && r;
            } else {
                proof {
                    if s0.element_nodes.slots() + 4 * x <= i32::MAX && s0.nodes.slots() + 16 * cc <= i32::MAX {
                        self.lemma_cap_skip(s0, n, e, k as int, ok);
                    }
                    self.lemma_skip_child(s0, n, e, k as int, ok);
                    assert((4 - k) * x == x + (4 - (k + 1)) * x) by (nonlinear_arith);
                    assert((4 - k) * 4 * cc == 4 * cc + (4 - (k + 1)) * 4 * cc) by (nonlinear_arith);
                }
            }
            k = k + 1;
        }
        proof {
            self.lemma_branch_done(s0, o, n, e, ok);
            if s0.element_nodes.slots() + 4 * x <= i32::MAX && s0.nodes.slots() + 16 * cc <= i32::MAX {
                self.lemma_cap_done(s0, n, e, ok);
            }
            self.lemma_rule_done(s0, o, n, e, ok, q);
        }
        ok
    }

    /// Leaf `l`'s chain has an entry for element `e`.
    pub closed spec fn leaf_holds(&self, l: int, e: int) -> bool {
        self.leaf_has(l, e)
    }

    /// The two trees index the same elements in the same nodes; they may
    /// differ only in query scratch space.
    pub closed spec fn same_index(&self, o: Self) -> bool {
        &&& self.elm_rects == o.elm_rects
        &&& self.element_nodes == o.element_nodes
        &&& self.nodes == o.nodes
        &&& self.data == o.data
        &&& self.root_rect == o.root_rect
        &&& self.max_depth == o.max_depth
        &&& self.elements_per_node == o.elements_per_node
        &&& self.depth == o.depth
        &&& self.region == o.region
        &&& self.parent == o.parent
        &&& self.chain == o.chain
        &&& self.owner == o.owner
    }

    /// `same_index` but for the leaf capacity.
    pub(crate) open spec fn same_core(&self, o: Self) -> bool {
        &&& self.elm_rects == o.elm_rects
        &&& self.element_nodes == o.element_nodes
        &&& self.nodes == o.nodes
        &&& self.data == o.data
        &&& self.root_rect == o.root_rect
        &&& self.max_depth == o.max_depth
        &&& self.depth == o.depth
        &&& self.region == o.region
        &&& self.parent == o.parent
        &&& self.chain == o.chain
        &&& self.owner == o.owner
    }

    pub(crate) proof fn lemma_wf_unfold(&self)
        requires
            self.wf(),
        ensures
            self.wf_structure(),
            self.all_placed(),
    {
    }

    /// A tree that differs from a well-formed one only in a cleared scratch
    /// buffer is well formed and indexes the same.
    pub(crate) proof fn lemma_buffer_only(&self, o: Self)
        requires
            o.wf(),
            self.same_core(o),
            self.elements_per_node >= 1,
            forall|i: int| 0 <= i < self.query_tmp_buffer@.len() ==> !self.query_tmp_buffer@[i],
            self.query_tmp_buffer@.len() <= i32::MAX,
        ensures
            self.wf(),
            self.elements() == o.elements(),
            self.node_ids() == o.node_ids(),
            self.root() == o.root(),
            self.node_total() == o.node_total(),
            forall|i: int| #[trigger] self.is_leaf(i) == o.is_leaf(i),
            forall|i: int| #[trigger] self.region_of(i) == o.region_of(i),
            forall|i: int, e: int| #[trigger] self.leaf_holds(i, e) == o.leaf_holds(i, e),
    {
        assert forall|i: int| #[trigger] self.live(i) implies self.wf_node(i) by {
            o.lemma_node(i);
            if o.is_leaf(i) {
                assert(self.wf_leaf(i)) by {
                    reveal(QuadTree::wf_leaf);
                    assert(o.wf_leaf(i));
                    let c = self.chain@[i];
                    assert forall|k: int| 0 <= k < c.len() implies #[trigger] self.chain_link(i, k) by {
                        assert(o.chain_link(i, k));
                    }
                    assert forall|k1: int, k2: int|
                        0 <= k1 < c.len() && 0 <= k2 < c.len() && k1 != k2 implies #[trigger] self.entry(c[k1]).elm_id
                            != #[trigger] self.entry(c[k2]).elm_id by {
                        assert(o.entry(c[k1]).elm_id != o.entry(c[k2]).elm_id);
                    }
                }
            }
        }
        assert(self.nodes_ok()) by {
            reveal(QuadTree::nodes_ok);
        }
        assert(self.wf_free_nodes()) by {
            reveal(QuadTree::wf_free_nodes);
            assert(o.wf_free_nodes());
        }
        assert(self.elems_ok()) by {
            reveal(QuadTree::elems_ok);
            assert(o.elems_ok());
        }
        assert(self.all_placed()) by {
            reveal(QuadTree::all_placed);
            assert(o.all_placed());
            assert forall|e: int| #[trigger] self.elm_rects@.contains_key(e) implies self.placed(e) by {
                assert(o.placed(e));
                assert forall|l: int| #[trigger] self.is_leaf(l) implies (self.leaf_has(l, e) <==> overlaps(self.region@[l], self.erect(e))) by {
                    assert(o.is_leaf(l));
                }
            }
        }
    }

    /// The payload of element `element_id`.
    pub fn get(&self, element_id: i32) -> (r: &T)
        requires
            self.wf(),
            self.elements().contains_key(element_id as int),
        ensures
            *r == self.elements()[element_id as int].0,
    {
        proof {
            reveal(QuadTree::elems_ok);
        }
        let d = self.elm_rects.get(element_id).data_id;
        self.data.get(d)
    }

    /// The rectangle of element `element_id`.
    pub fn element_rect(&self, element_id: i32) -> (r: Rect)
        requires
            self.wf(),
            self.elements().contains_key(element_id as int),
        ensures
            r == self.elements()[element_id as int].1,
    {
        self.elm_rects.get(element_id).rect
    }

    /// Node `i` is a child of a branch whose four children are empty leaves.
    pub open spec fn child_of_collapsible(&self, i: int) -> bool {
        exists|b: int| self.collapsible(b) && self.first_child(b) <= i < self.first_child(b) + 4
    }

    /// The free node slots come in blocks of four consecutive indices, none
    /// of them a live node, all below `node_slots()`.
    pub proof fn lemma_free_nodes_grouped(&self)
        requires
            self.wf(),
        ensures
            grouped(self.node_free_chain()),
            forall|k: int| 0 <= k < self.node_free_chain().len() ==> !self.node_ids().contains(#[trigger] self.node_free_chain()[k])
                && 0 <= self.node_free_chain()[k] < self.node_slots(),
    {
        reveal(QuadTree::wf_free_nodes);
        self.nodes.lemma_wf();
        assert forall|k: int| 0 <= k < self.node_free_chain().len() implies !self.node_ids().contains(#[trigger] self.node_free_chain()[k])
            && 0 <= self.node_free_chain()[k] < self.node_slots() by {
            assert(self.nodes.free_chain().contains(self.nodes.free_chain()[k]));
        }
    }

    /// The branch that node `i` is a child of.
    pub closed spec fn parent_of(&self, i: int) -> int {
        self.parent@[i]
    }

    /// Every leaf above the depth limit holds at most `capacity()` entries.
    pub closed spec fn within_capacity(&self) -> bool {
        forall|l: int| #[trigger] self.is_leaf(l) && self.depth@[l] < MAX_DEPTH ==> self.nodes@[l].count <= self.elements_per_node
    }

    /// `x` is the first child of a collapsible branch.
    pub open spec fn collapsible_first(&self, x: int) -> bool {
        exists|b: int| self.collapsible(b) && self.first_child(b) == x
    }

    /// `x` is the first child of a collapsible branch under `n`.
    pub(crate) open spec fn head_under(&self, x: int, n: int) -> bool {
        exists|b: int| self.collapsible(b) && self.under(b, n) && self.fc(b) == x
    }

    /// `p` is made of blocks `x, x+1, x+2, x+3`, each the children of a
    /// collapsible branch under `n`.
    pub(crate) open spec fn heads_ok(&self, p: Seq<int>, n: int) -> bool {
        &&& grouped(p)
        &&& forall|g: int| 0 <= g && 4 * g < p.len() ==> #[trigger] self.head_under(p[4 * g], n)
    }

    /// `p` holds the four children of `b`.
    pub open spec fn covers_children(&self, p: Seq<int>, b: int) -> bool {
        &&& p.contains(self.first_child(b))
        &&& p.contains(self.first_child(b) + 1)
        &&& p.contains(self.first_child(b) + 2)
        &&& p.contains(self.first_child(b) + 3)
    }

    /// A branch whose four children are empty leaves.
    pub closed spec fn collapsible(&self, b: int) -> bool {
        &&& self.is_branch(b)
        &&& self.empty_leaf_at(self.fc(b))
        &&& self.empty_leaf_at(self.fc(b) + 1)
        &&& self.empty_leaf_at(self.fc(b) + 2)
        &&& self.empty_leaf_at(self.fc(b) + 3)
    }

    pub(crate) open spec fn empty_leaf_at(&self, i: int) -> bool {
        self.nodes@.contains_key(i) && self.nodes@[i].count == 0
    }

    /// Turns branch `b`, whose children are empty leaves, back into an empty
    /// leaf, and frees the children last to first, so that the free chain
    /// hands them out again as one block of four.
    fn collapse(&mut self, b: i32)
        requires
            old(self).wf(),
            old(self).collapsible(b as int),
        ensures
            final(self).wf(),
            final(self).elements() == old(self).elements(),
            final(self).root_rect == old(self).root_rect,
            final(self).elements_per_node == old(self).elements_per_node,
            final(self).is_leaf(b as int),
            final(self).nodes@[b as int] == empty_node(),
            final(self).node_ids() == old(self).node_ids().remove(old(self).fc(b as int)).remove(old(self).fc(b as int) + 1).remove(
                old(self).fc(b as int) + 2,
            ).remove(old(self).fc(b as int) + 3),
            forall|i: int| i != b && final(self).nodes@.contains_key(i) ==> #[trigger] final(self).nodes@[i] == old(self).nodes@[i],
            final(self).parent == old(self).parent,
            final(self).depth == old(self).depth,
            final(self).region == old(self).region,
            final(self).nodes.slots() == old(self).nodes.slots(),
            final(self).elm_rects == old(self).elm_rects,
            final(self).data == old(self).data,
            final(self).element_nodes == old(self).element_nodes,
            final(self).nodes.free_chain().len() == old(self).nodes.free_chain().len() + 4,
            final(self).nodes.free_chain().subrange(4, final(self).nodes.free_chain().len() as int) == old(self).nodes.free_chain(),
            final(self).nodes.free_chain().subrange(0, 4) == seq![
                old(self).fc(b as int),
                old(self).fc(b as int) + 1,
                old(self).fc(b as int) + 2,
                old(self).fc(b as int) + 3,
            ],
    {
        let ghost before = *self;
        proof {
            self.lemma_wf_unfold();
            self.lemma_node(b as int);
            assert(self.child_ok(b as int, 0) && self.child_ok(b as int, 1) && self.child_ok(b as int, 2) && self.child_ok(b as int, 3));
        }
        let first_child = self.nodes.get(b).first_child;
        let ghost f0 = self.nodes.free_chain();
        self.nodes.set(b, Node { first_child: -1, count: 0 });
        self.nodes.erase(first_child + 3);
        self.nodes.erase(first_child + 2);
        self.nodes.erase(first_child + 1);
        self.nodes.erase(first_child);
        proof {
            let fc = first_child as int;
            assert(self.nodes.free_chain() =~= seq![fc, fc + 1, fc + 2, fc + 3] + f0);
            assert(self.nodes.free_chain().subrange(4, self.nodes.free_chain().len() as int) =~= f0);
            assert(self.nodes.free_chain().subrange(0, 4) =~= seq![fc, fc + 1, fc + 2, fc + 3]);
        }
        self.chain = Ghost(self.chain@.insert(b as int, Seq::empty()));
        proof {
            self.lemma_collapsed(before, b as int);
        }
    }

    proof fn lemma_collapsed_node(&self, before: Self, b: int, i: int)
        requires
            self.live(i),
            before.wf(),
            before.collapsible(b),
            self.nodes.wf(),
            self.nodes@ == before.nodes@.insert(b, empty_node()).remove(before.fc(b) + 3).remove(before.fc(b) + 2).remove(before.fc(b) + 1).remove(
                before.fc(b),
            ),
            self.nodes.free_chain() == seq![before.fc(b), before.fc(b) + 1, before.fc(b) + 2, before.fc(b) + 3] + before.nodes.free_chain(),
            self.elm_rects == before.elm_rects,
            self.element_nodes == before.element_nodes,
            self.data == before.data,
            self.root_rect == before.root_rect,
            self.max_depth == before.max_depth,
            self.elements_per_node == before.elements_per_node,
            self.query_tmp_buffer == before.query_tmp_buffer,
            self.depth == before.depth,
            self.region == before.region,
            self.parent == before.parent,
            self.owner == before.owner,
            self.chain@ == before.chain@.insert(b, Seq::empty()),
        ensures
            self.wf_node(i),
    {
        before.lemma_wf_unfold();
        before.lemma_node(b);
        let f = before.fc(b);
        assert(before.child_ok(b, 0) && before.child_ok(b, 1) && before.child_ok(b, 2) && before.child_ok(b, 3));
        assert(b != f && b != f + 1 && b != f + 2 && b != f + 3);
        before.lemma_node(0);
        before.lemma_node(f);
        before.lemma_node(f + 1);
        before.lemma_node(f + 2);
        before.lemma_node(f + 3);
        assert(self.live(0));
        // a live node other than `b` and its children keeps its node, and its
        // parent is neither `b` nor a child of `b`
            before.lemma_node(i);
        if i != 0 {
            before.lemma_node(before.parent@[i]);
        }
        if i == b {
            assert(self.wf_leaf(b)) by {
                reveal(QuadTree::wf_leaf);
            }
        } else {
            if before.is_branch(i) {
                assert(before.child_ok(i, 0));
                assert(before.child_ok(i, 1));
                assert(before.child_ok(i, 2));
                assert(before.child_ok(i, 3));
            }
            if before.is_leaf(i) {
                reveal(QuadTree::wf_leaf);
                let c = before.chain@[i];
                assert forall|k: int| 0 <= k < c.len() implies {
                    &&& self.element_nodes@.contains_key(#[trigger] c[k])
                    &&& self.entry(c[k]) == before.entry(c[k])
                    &&& self.owner@[c[k]] == before.owner@[c[k]]
                    &&& self.elm_rects@.contains_key(before.entry(c[k]).elm_id as int)
                } by {
                    assert(before.chain_link(i, k));
                }
                assert(self.same_chain(before, i));
            }
            self.lemma_node_frame(before, i);
        }
            }

    #[verifier::rlimit(50)]
    proof fn lemma_collapsed_nodes(&self, before: Self, b: int)
        requires
            before.wf(),
            before.collapsible(b),
            self.nodes.wf(),
            self.nodes@ == before.nodes@.insert(b, empty_node()).remove(before.fc(b) + 3).remove(before.fc(b) + 2).remove(before.fc(b) + 1).remove(
                before.fc(b),
            ),
            self.nodes.free_chain() == seq![before.fc(b), before.fc(b) + 1, before.fc(b) + 2, before.fc(b) + 3] + before.nodes.free_chain(),
            self.elm_rects == before.elm_rects,
            self.element_nodes == before.element_nodes,
            self.data == before.data,
            self.root_rect == before.root_rect,
            self.max_depth == before.max_depth,
            self.elements_per_node == before.elements_per_node,
            self.query_tmp_buffer == before.query_tmp_buffer,
            self.depth == before.depth,
            self.region == before.region,
            self.parent == before.parent,
            self.owner == before.owner,
            self.chain@ == before.chain@.insert(b, Seq::empty()),
        ensures
            self.nodes_ok(),
    {
        before.lemma_wf_unfold();
        before.lemma_node(b);
        let f = before.fc(b);
        assert(before.child_ok(b, 0) && before.child_ok(b, 1) && before.child_ok(b, 2) && before.child_ok(b, 3));
        assert(b != f && b != f + 1 && b != f + 2 && b != f + 3);
        assert(self.live(0)) by {
            before.lemma_node(0);
            assert(before.depth@[f] == before.depth@[b] + 1);
            before.lemma_node(b);
        }
        // a live node other than `b` and its children keeps its node, and its
        // parent is neither `b` nor a child of `b`
        assert forall|i: int| #[trigger] self.live(i) implies self.wf_node(i) by {
            self.lemma_collapsed_node(before, b, i);
        }
        assert(self.nodes_ok()) by {
            reveal(QuadTree::nodes_ok);
        }
    }

    proof fn lemma_collapsed_rest(&self, before: Self, a: int)
        requires
            before.wf_free_nodes(),
            before.elems_ok(),
            self.nodes.free_chain() == seq![a, a + 1, a + 2, a + 3] + before.nodes.free_chain(),
            self.elm_rects == before.elm_rects,
            self.data == before.data,
        ensures
            self.wf_free_nodes(),
            self.elems_ok(),
    {
        reveal(QuadTree::wf_free_nodes);
        lemma_groups_push(before.nodes.free_chain(), a);
        reveal(QuadTree::elems_ok);
    }

    proof fn lemma_collapsed(&self, before: Self, b: int)
        requires
            before.wf(),
            before.collapsible(b),
            self.nodes.wf(),
            self.nodes@ == before.nodes@.insert(b, empty_node()).remove(before.fc(b) + 3).remove(before.fc(b) + 2).remove(before.fc(b) + 1).remove(
                before.fc(b),
            ),
            self.nodes.free_chain() == seq![before.fc(b), before.fc(b) + 1, before.fc(b) + 2, before.fc(b) + 3] + before.nodes.free_chain(),
            self.elm_rects == before.elm_rects,
            self.element_nodes == before.element_nodes,
            self.data == before.data,
            self.root_rect == before.root_rect,
            self.max_depth == before.max_depth,
            self.elements_per_node == before.elements_per_node,
            self.query_tmp_buffer == before.query_tmp_buffer,
            self.depth == before.depth,
            self.region == before.region,
            self.parent == before.parent,
            self.owner == before.owner,
            self.chain@ == before.chain@.insert(b, Seq::empty()),
        ensures
            self.wf(),
            self.elements() == before.elements(),
            self.node_ids() == before.node_ids().remove(before.fc(b)).remove(before.fc(b) + 1).remove(before.fc(b) + 2).remove(before.fc(b) + 3),
    {
        self.lemma_collapsed_nodes(before, b);
        before.lemma_wf_unfold();
        self.lemma_collapsed_rest(before, before.fc(b));
        assert(self.live(0)) by {
            before.lemma_node(0);
            before.lemma_node(b);
            assert(before.child_ok(b, 0) && before.child_ok(b, 1) && before.child_ok(b, 2) && before.child_ok(b, 3));
        }
        assert(self.wf_structure());
        before.lemma_node(b);
        let f = before.fc(b);
        assert(before.child_ok(b, 0) && before.child_ok(b, 1) && before.child_ok(b, 2) && before.child_ok(b, 3));
        reveal(QuadTree::all_placed);
        assert forall|e: int| #[trigger] self.elm_rects@.contains_key(e) implies self.placed(e) by {
            assert(before.placed(e));
            assert forall|l: int| #[trigger] self.is_leaf(l) implies (self.leaf_has(l, e) <==> overlaps(self.region@[l], self.erect(e))) by {
                if l == b {
                    if overlaps(self.region@[b], self.erect(e)) {
                        assert(before.elems_ok()) by {
                            before.lemma_wf_unfold();
                        }
                        reveal(QuadTree::elems_ok);
                        lemma_quad_cover(before.region@[b], before.erect(e));
                        assert forall|k: int| 0 <= k < 4 implies !overlaps(#[trigger] quad(before.region@[b], k), before.erect(e)) by {
                            assert(before.child_ok(b, k));
                            before.lemma_node(f + k);
                            reveal(QuadTree::wf_leaf);
                            assert(before.is_leaf(f + k));
                            assert(!before.leaf_has(f + k, e));
                        }
                        assert(false);
                    }
                } else {
                    assert(before.is_leaf(l));
                }
            }
        }
        assert(self.elements() =~= before.elements());
        assert(self.node_ids() =~= before.node_ids().remove(f).remove(f + 1).remove(f + 2).remove(f + 3));
    }

    proof fn lemma_anc_same_parent(&self, a: Self, i: int, k: nat)
        requires
            self.parent == a.parent,
        ensures
            self.anc(i, k) == a.anc(i, k),
        decreases k,
    {
        if k > 0 {
            self.lemma_anc_same_parent(a, i, (k - 1) as nat);
        }
    }

    proof fn lemma_cleanup_step(&self, s: Self, o: Self, ni: int, k: int)
        requires
            0 <= k < 4,
            o.wf(),
            o.wf_structure(),
            o.is_branch(ni),
            s.wf(),
            s.parent == o.parent,
            s.depth == o.depth,
            s.region == o.region,
            s.node_ids().subset_of(o.node_ids()),
            s.live(ni),
            s.nodes@[ni] == o.nodes@[ni],
            forall|i: int| #[trigger] o.live(i) && !(o.under(i, ni) && i != ni && o.kid_node(i, ni) < o.fc(ni) + k) ==> s.live(i)
                && s.nodes@[i] == o.nodes@[i],
            forall|b: int| #[trigger] o.collapsible(b) && o.under(b, ni) && b != ni && o.kid_node(b, ni) < o.fc(ni) + k ==> s.is_leaf(b)
                && s.nodes@[b] == empty_node(),
            forall|i: int| #[trigger] s.live(i) && o.is_leaf(i) ==> s.nodes@[i] == o.nodes@[i],
            s.live(o.fc(ni) + k),
            self.parent == s.parent,
            self.depth == s.depth,
            self.region == s.region,
            self.node_ids().subset_of(s.node_ids()),
            forall|i: int| #[trigger] s.live(i) && !s.under(i, o.fc(ni) + k) ==> self.live(i) && self.nodes@[i] == s.nodes@[i],
            forall|b: int| #[trigger] s.collapsible(b) && s.under(b, o.fc(ni) + k) ==> self.is_leaf(b) && self.nodes@[b] == empty_node(),
            forall|i: int| #[trigger] self.live(i) && s.is_leaf(i) ==> self.nodes@[i] == s.nodes@[i],
            forall|b: int| #[trigger] o.is_branch(b) && !o.collapsible(b) && o.under(b, ni) && b != ni && o.kid_node(b, ni) < o.fc(ni) + k
                ==> s.live(b) && s.nodes@[b] == o.nodes@[b],
            s.nodes.slots() == o.nodes.slots(),
            is_suffix(s.nodes.free_chain(), o.nodes.free_chain()),
            forall|b: int| #[trigger] s.is_branch(b) && !s.collapsible(b) && s.under(b, o.fc(ni) + k) ==> self.live(b) && self.nodes@[b] == s.nodes@[b],
            self.nodes.slots() == s.nodes.slots(),
            is_suffix(self.nodes.free_chain(), s.nodes.free_chain()),
            o.heads_ok(prefix_before(s.nodes.free_chain(), o.nodes.free_chain()), ni),
            forall|b: int| #[trigger] o.collapsible(b) && o.under(b, ni) && b != ni && o.kid_node(b, ni) < o.fc(ni) + k
                ==> o.covers_children(prefix_before(s.nodes.free_chain(), o.nodes.free_chain()), b),
            s.heads_ok(prefix_before(self.nodes.free_chain(), s.nodes.free_chain()), o.fc(ni) + k),
            forall|b: int| #[trigger] s.collapsible(b) && s.under(b, o.fc(ni) + k) ==> s.covers_children(
                prefix_before(self.nodes.free_chain(), s.nodes.free_chain()),
                b,
            ),
        ensures
            o.heads_ok(prefix_before(self.nodes.free_chain(), o.nodes.free_chain()), ni),
            forall|b: int| #[trigger] o.collapsible(b) && o.under(b, ni) && b != ni && o.kid_node(b, ni) < o.fc(ni) + k + 1
                ==> o.covers_children(prefix_before(self.nodes.free_chain(), o.nodes.free_chain()), b),
            forall|b: int| #[trigger] o.is_branch(b) && !o.collapsible(b) && o.under(b, ni) && b != ni && o.kid_node(b, ni) < o.fc(ni) + k + 1
                ==> self.live(b) && self.nodes@[b] == o.nodes@[b],
            self.nodes.slots() == o.nodes.slots(),
            is_suffix(self.nodes.free_chain(), o.nodes.free_chain()),
            self.node_ids().subset_of(o.node_ids()),
            self.live(ni),
            self.nodes@[ni] == o.nodes@[ni],
            forall|i: int| #[trigger] o.live(i) && !(o.under(i, ni) && i != ni && o.kid_node(i, ni) < o.fc(ni) + k + 1) ==> self.live(i)
                && self.nodes@[i] == o.nodes@[i],
            forall|b: int| #[trigger] o.collapsible(b) && o.under(b, ni) && b != ni && o.kid_node(b, ni) < o.fc(ni) + k + 1 ==> self.is_leaf(b)
                && self.nodes@[b] == empty_node(),
            forall|i: int| #[trigger] self.live(i) && o.is_leaf(i) ==> self.nodes@[i] == o.nodes@[i],
    {
        let c = o.fc(ni) + k;
        o.lemma_node(ni);
        assert(o.child_ok(ni, k));
        // ancestry reads the same in all three states
        assert forall|i: int, m: int| s.live(i) && o.live(i) implies #[trigger] s.under(i, m) == o.under(i, m) by {
            if o.depth@[i] >= o.depth@[m] {
                s.lemma_anc_same_parent(o, i, (o.depth@[i] - o.depth@[m]) as nat);
            }
        }
        assert(!s.under(ni, c));
        assert forall|i: int| o.live(i) && s.live(i) && s.under(i, c) implies o.under(i, ni) && i != ni && o.kid_node(i, ni) == c by {
            assert(o.under(i, c));
            o.lemma_kid_of_child(i, ni, k);
        }
        assert forall|i: int| #[trigger] o.live(i) && !(o.under(i, ni) && i != ni && o.kid_node(i, ni) < o.fc(ni) + k + 1) implies self.live(i)
            && self.nodes@[i] == o.nodes@[i] by {
            assert(s.live(i));
            if s.under(i, c) {
                assert(o.under(i, c));
                o.lemma_kid_of_child(i, ni, k);
            }
        }
        assert(self.live(ni)) by {
            assert(s.live(ni));
        }
        assert forall|i: int| #[trigger] self.live(i) && o.is_leaf(i) implies self.nodes@[i] == o.nodes@[i] by {
            assert(s.node_ids().contains(i));
            assert(s.live(i));
            assert(s.nodes@[i] == o.nodes@[i]);
            assert(s.is_leaf(i));
        }
        assert forall|b: int| #[trigger] o.collapsible(b) && o.under(b, ni) && b != ni && o.kid_node(b, ni) < o.fc(ni) + k + 1 implies self.is_leaf(b)
            && self.nodes@[b] == empty_node() by {
            o.lemma_kid(b, ni);
            assert(o.live(b));
            if o.kid_node(b, ni) < c {
                assert(s.nodes@[b] == empty_node());
                assert(s.live(b));
                if s.under(b, c) {
                    assert(o.under(b, c));
                    o.lemma_kid_of_child(b, ni, k);
                }
            } else {
                assert(o.under(b, c));
                o.lemma_node(b);
                let f = o.fc(b);
                assert(o.child_ok(b, 0) && o.child_ok(b, 1) && o.child_ok(b, 2) && o.child_ok(b, 3));
                assert(s.live(b));
                self.lemma_child_kept(s, o, ni, k, b, f);
                self.lemma_child_kept(s, o, ni, k, b, f + 1);
                self.lemma_child_kept(s, o, ni, k, b, f + 2);
                self.lemma_child_kept(s, o, ni, k, b, f + 3);
                assert(s.live(b) && s.nodes@[b] == o.nodes@[b]);
                assert(s.collapsible(b));
                assert(s.under(b, c));
            }
        }
        lemma_suffix_trans(self.nodes.free_chain(), s.nodes.free_chain(), o.nodes.free_chain());
        lemma_prefix_concat(self.nodes.free_chain(), s.nodes.free_chain(), o.nodes.free_chain());
        let p1 = prefix_before(self.nodes.free_chain(), s.nodes.free_chain());
        let p0 = prefix_before(s.nodes.free_chain(), o.nodes.free_chain());
        let pp = p1 + p0;
        lemma_grouped_concat(p1, p0);
        assert forall|g: int| 0 <= g && 4 * g < pp.len() implies #[trigger] o.head_under(pp[4 * g], ni) by {
            if 4 * g < p1.len() {
                assert(s.head_under(p1[4 * g], c));
                let b = choose|b: int| s.collapsible(b) && s.under(b, c) && s.fc(b) == p1[4 * g];
                self.lemma_collapsible_map(s, o, ni, k, b);
            } else {
                let h = g - p1.len() / 4;
                assert(4 * h == 4 * g - p1.len());
                assert(pp[4 * g] == p0[4 * h]);
                assert(o.head_under(p0[4 * h], ni));
            }
        }
        assert forall|b: int| #[trigger] o.collapsible(b) && o.under(b, ni) && b != ni && o.kid_node(b, ni) < o.fc(ni) + k + 1
            implies o.covers_children(pp, b) by {
            o.lemma_kid(b, ni);
            let f = o.fc(b);
            if o.kid_node(b, ni) < c {
                assert(o.covers_children(p0, b));
                lemma_contains_concat(p1, p0, f);
                lemma_contains_concat(p1, p0, f + 1);
                lemma_contains_concat(p1, p0, f + 2);
                lemma_contains_concat(p1, p0, f + 3);
            } else {
                assert(o.live(b));
                assert(o.under(b, c));
                o.lemma_node(b);
                assert(s.live(b) && s.nodes@[b] == o.nodes@[b]);
                self.lemma_child_kept(s, o, ni, k, b, f);
                self.lemma_child_kept(s, o, ni, k, b, f + 1);
                self.lemma_child_kept(s, o, ni, k, b, f + 2);
                self.lemma_child_kept(s, o, ni, k, b, f + 3);
                assert(s.collapsible(b));
                assert(s.under(b, c));
                assert(s.covers_children(p1, b));
                lemma_contains_concat(p1, p0, f);
                lemma_contains_concat(p1, p0, f + 1);
                lemma_contains_concat(p1, p0, f + 2);
                lemma_contains_concat(p1, p0, f + 3);
            }
        }
        assert forall|b: int| #[trigger] o.is_branch(b) && !o.collapsible(b) && o.under(b, ni) && b != ni && o.kid_node(b, ni) < o.fc(ni) + k + 1
            implies self.live(b) && self.nodes@[b] == o.nodes@[b] by {
            o.lemma_kid(b, ni);
            assert(o.live(b));
            if o.kid_node(b, ni) < c {
                assert(s.live(b));
                if s.under(b, c) {
                    assert(o.under(b, c));
                    o.lemma_kid_of_child(b, ni, k);
                }
            } else {
                assert(o.under(b, c));
                o.lemma_node(b);
                let f = o.fc(b);
                assert(s.live(b) && s.nodes@[b] == o.nodes@[b]);
                self.lemma_child_kept(s, o, ni, k, b, f);
                self.lemma_child_kept(s, o, ni, k, b, f + 1);
                self.lemma_child_kept(s, o, ni, k, b, f + 2);
                self.lemma_child_kept(s, o, ni, k, b, f + 3);
                assert(s.is_branch(b));
                assert(!s.collapsible(b));
                assert(s.under(b, c));
            }
        }
    }

    proof fn lemma_under_trans(&self, i: int, m: int, n: int)
        requires
            self.wf_structure(),
            self.under(i, m),
            self.under(m, n),
        ensures
            self.under(i, n),
    {
        self.lemma_anc_compose(i, (self.depth@[i] - self.depth@[m]) as nat, (self.depth@[m] - self.depth@[n]) as nat);
    }

    proof fn lemma_child_kept(&self, s: Self, o: Self, ni: int, k: int, b: int, x: int)
        requires
            0 <= k < 4,
            o.wf_structure(),
            o.is_branch(ni),
            o.is_branch(b),
            o.fc(b) <= x < o.fc(b) + 4,
            o.under(b, ni),
            b != ni,
            o.kid_node(b, ni) == o.fc(ni) + k,
            forall|i: int| #[trigger] o.live(i) && !(o.under(i, ni) && i != ni && o.kid_node(i, ni) < o.fc(ni) + k) ==> s.live(i)
                && s.nodes@[i] == o.nodes@[i],
        ensures
            s.live(x),
            s.nodes@[x] == o.nodes@[x],
    {
        o.lemma_node(b);
        o.lemma_node(0);
        assert(o.child_ok(b, 0) && o.child_ok(b, 1) && o.child_ok(b, 2) && o.child_ok(b, 3));
        assert(o.child_ok(b, x - o.fc(b)));
        assert(x != 0);
        o.lemma_child(b, x);
        assert(o.anc(x, 1) == o.parent@[o.anc(x, 0)]);
        assert(o.under(x, b));
        o.lemma_under_trans(x, b, ni);
        o.lemma_kid(x, ni);
        o.lemma_kid(b, ni);
        o.lemma_anc_compose(x, 1, (o.depth@[b] - o.depth@[ni] - 1) as nat);
        assert(o.kid_node(x, ni) == o.kid_node(b, ni));
    }

    /// A collapsible branch under child `k` of `ni` in the middle state `s`
    /// was already collapsible, with the same children, at the start.
    proof fn lemma_collapsible_map(&self, s: Self, o: Self, ni: int, k: int, b: int)
        requires
            0 <= k < 4,
            o.wf(),
            o.wf_structure(),
            o.is_branch(ni),
            s.parent == o.parent,
            s.depth == o.depth,
            s.node_ids().subset_of(o.node_ids()),
            forall|i: int| #[trigger] o.live(i) && !(o.under(i, ni) && i != ni && o.kid_node(i, ni) < o.fc(ni) + k) ==> s.live(i)
                && s.nodes@[i] == o.nodes@[i],
            s.collapsible(b),
            s.under(b, o.fc(ni) + k),
        ensures
            o.collapsible(b),
            o.under(b, ni),
            o.fc(b) == s.fc(b),
    {
        let c = o.fc(ni) + k;
        assert(s.live(b));
        assert(s.node_ids().contains(b));
        assert(o.live(b));
        o.lemma_node(ni);
        assert(o.child_ok(ni, 0) && o.child_ok(ni, 1) && o.child_ok(ni, 2) && o.child_ok(ni, 3));
        assert(o.child_ok(ni, k));
        s.lemma_anc_same_parent(o, b, (o.depth@[b] - o.depth@[c]) as nat);
        assert(o.under(b, c));
        o.lemma_kid_of_child(b, ni, k);
        assert(s.nodes@[b] == o.nodes@[b]);
        o.lemma_node(b);
        let f = o.fc(b);
        self.lemma_child_kept(s, o, ni, k, b, f);
        self.lemma_child_kept(s, o, ni, k, b, f + 1);
        self.lemma_child_kept(s, o, ni, k, b, f + 2);
        self.lemma_child_kept(s, o, ni, k, b, f + 3);
    }

    /// Going `a` levels up, then `b` more, is going `a + b` levels up.
    proof fn lemma_anc_compose(&self, i: int, a: nat, b: nat)
        ensures
            self.anc(self.anc(i, a), b) == self.anc(i, a + b),
        decreases b,
    {
        if b > 0 {
            self.lemma_anc_compose(i, a, (b - 1) as nat);
        }
    }

    /// Collapses, under node `n`, every branch whose four children are empty
    /// leaves, checking each branch before its subtree is visited.
    fn cleanup_node(&mut self, n: i32, depth: i32)
        requires
            old(self).wf(),
            old(self).live(n as int),
            old(self).depth@[n as int] == depth,
        ensures
            final(self).wf(),
            final(self).elements() == old(self).elements(),
            final(self).root_rect == old(self).root_rect,
            final(self).elements_per_node == old(self).elements_per_node,
            final(self).parent == old(self).parent,
            final(self).depth == old(self).depth,
            final(self).region == old(self).region,
            final(self).node_ids().subset_of(old(self).node_ids()),
            final(self).live(n as int),
            forall|i: int| #[trigger] old(self).live(i) && !old(self).under(i, n as int) ==> final(self).live(i) && final(self).nodes@[i] == old(self).nodes@[i],
            forall|b: int| #[trigger] old(self).collapsible(b) && old(self).under(b, n as int) ==> final(self).is_leaf(b) && final(self).nodes@[b] == empty_node(),
            forall|i: int| #[trigger] final(self).live(i) && old(self).is_leaf(i) ==> final(self).nodes@[i] == old(self).nodes@[i],
            forall|b: int| #[trigger] old(self).is_branch(b) && !old(self).collapsible(b) && old(self).under(b, n as int) ==> final(self).live(b)
                && final(self).nodes@[b] == old(self).nodes@[b],
            final(self).nodes.slots() == old(self).nodes.slots(),
            final(self).nodes.free_chain().len() >= old(self).nodes.free_chain().len(),
            is_suffix(final(self).nodes.free_chain(), old(self).nodes.free_chain()),
            final(self).elm_rects == old(self).elm_rects,
            final(self).data == old(self).data,
            final(self).element_nodes == old(self).element_nodes,
            old(self).heads_ok(prefix_before(final(self).nodes.free_chain(), old(self).nodes.free_chain()), n as int),
            forall|b: int| #[trigger] old(self).collapsible(b) && old(self).under(b, n as int) ==> old(self).covers_children(
                prefix_before(final(self).nodes.free_chain(), old(self).nodes.free_chain()),
                b,
            ),
        decreases MAX_DEPTH - depth,
    {
        let ghost o = *self;
        let ghost ni = n as int;
        proof {
            self.lemma_wf_unfold();
            self.lemma_node(ni);
        }
        let node = *self.nodes.get(n);
        if !node.is_branch() {
            proof {
                assert forall|b: int| o.collapsible(b) && o.under(b, ni) implies false by {
                    if b != ni {
                        o.lemma_under_child(b, ni);
                    }
                }
                assert forall|b: int| #[trigger] o.is_branch(b) && !o.collapsible(b) && o.under(b, ni) implies false by {
                    if b != ni {
                        o.lemma_under_child(b, ni);
                    }
                }
                assert(self.nodes.free_chain().subrange(0, self.nodes.free_chain().len() as int) =~= self.nodes.free_chain());
                assert(prefix_before(self.nodes.free_chain(), o.nodes.free_chain()) =~= Seq::<int>::empty());
            }
            return;
        }
        proof {
            assert(o.child_ok(ni, 0) && o.child_ok(ni, 1) && o.child_ok(ni, 2) && o.child_ok(ni, 3));
        }
        let c0 = self.nodes.get(node.first_child).count;
        let c1 = self.nodes.get(node.first_child + 1).count;
        let c2 = self.nodes.get(node.first_child + 2).count;
        let c3 = self.nodes.get(node.first_child + 3).count;
        if c0 == 0 && c1 == 0 && c2 == 0 && c3 == 0 {
            proof {
                assert(o.collapsible(ni));
            }
            self.collapse(n);
            proof {
                assert forall|i: int| #[trigger] o.live(i) && !o.under(i, ni) implies self.live(i) && self.nodes@[i] == o.nodes@[i] by {
                    assert(i != ni);
                    if o.fc(ni) <= i < o.fc(ni) + 4 {
                        let k = i - o.fc(ni);
                        assert(o.child_ok(ni, k));
                        assert(o.anc(i, 1) == o.parent@[o.anc(i, 0)]);
                        o.lemma_node(i);
                    }
                }
                assert forall|b: int| #[trigger] o.collapsible(b) && o.under(b, ni) implies self.is_leaf(b) && self.nodes@[b] == empty_node() by {
                    if b != ni {
                        let k = o.lemma_under_child(b, ni);
                        let c = o.fc(ni) + k;
                        if b != c {
                            o.lemma_under_child(b, c);
                        }
                    }
                }
                assert forall|b: int| #[trigger] o.is_branch(b) && !o.collapsible(b) && o.under(b, ni) implies false by {
                    if b != ni {
                        let k = o.lemma_under_child(b, ni);
                        let c = o.fc(ni) + k;
                        if b != c {
                            o.lemma_under_child(b, c);
                        }
                    }
                }
                assert(self.node_ids().subset_of(o.node_ids()));
                let pre = prefix_before(self.nodes.free_chain(), o.nodes.free_chain());
                let f = o.fc(ni);
                assert(pre == seq![f, f + 1, f + 2, f + 3]);
                assert(o.under(ni, ni));
                assert(o.head_under(pre[4 * 0int], ni));
                assert(o.heads_ok(pre, ni)) by {
                    assert forall|g: int| 0 <= g && 4 * g < pre.len() implies #[trigger] o.head_under(pre[4 * g], ni) by {
                        assert(g == 0);
                    }
                }
                assert forall|b: int| #[trigger] o.collapsible(b) && o.under(b, ni) implies o.covers_children(pre, b) by {
                    if b != ni {
                        let k = o.lemma_under_child(b, ni);
                        let c = o.fc(ni) + k;
                        if b != c {
                            o.lemma_under_child(b, c);
                        }
                    }
                    assert(pre[0] == f && pre[1] == f + 1 && pre[2] == f + 2 && pre[3] == f + 3);
                }
            }
            return;
        }
        let mut k: i32 = 0;
        proof {
            assert forall|b: int| #[trigger] o.collapsible(b) && o.under(b, ni) && b != ni && o.kid_node(b, ni) < node.first_child + k implies self.is_leaf(b)
                && self.nodes@[b] == empty_node() by {
                o.lemma_kid(b, ni);
            }
            assert forall|b: int| #[trigger] o.is_branch(b) && !o.collapsible(b) && o.under(b, ni) && b != ni && o.kid_node(b, ni) < node.first_child + k
                implies self.live(b) && self.nodes@[b] == o.nodes@[b] by {
                o.lemma_kid(b, ni);
            }
            assert(self.nodes.free_chain().subrange(0, self.nodes.free_chain().len() as int) =~= self.nodes.free_chain());
            assert(prefix_before(self.nodes.free_chain(), o.nodes.free_chain()) =~= Seq::<int>::empty());
            assert forall|b: int| #[trigger] o.collapsible(b) && o.under(b, ni) && b != ni && o.kid_node(b, ni) < node.first_child + k
                implies o.covers_children(prefix_before(self.nodes.free_chain(), o.nodes.free_chain()), b) by {
                o.lemma_kid(b, ni);
            }
        }
        while k < 4
            invariant
                0 <= k <= 4,
                ni == n as int,
                o.wf(),
                o.wf_structure(),
                o.is_branch(ni),
                !o.collapsible(ni),
                node == o.nodes@[ni],
                0 <= node.first_child,
                node.first_child + 4 <= i32::MAX,
                o.depth@[ni] == depth,
                depth < MAX_DEPTH,
                o.max_depth == MAX_DEPTH,
                self.wf(),
                self.elements() == o.elements(),
                self.root_rect == o.root_rect,
                self.elements_per_node == o.elements_per_node,
                self.parent == o.parent,
                self.depth == o.depth,
                self.region == o.region,
                self.node_ids().subset_of(o.node_ids()),
                self.live(ni),
                self.nodes@[ni] == o.nodes@[ni],
                forall|i: int| #[trigger] o.live(i) && !(o.under(i, ni) && i != ni && o.kid_node(i, ni) < node.first_child + k) ==> self.live(i)
                    && self.nodes@[i] == o.nodes@[i],
                forall|b: int| #[trigger] o.collapsible(b) && o.under(b, ni) && b != ni && o.kid_node(b, ni) < node.first_child + k ==> self.is_leaf(b)
                    && self.nodes@[b] == empty_node(),
                forall|i: int| #[trigger] self.live(i) && o.is_leaf(i) ==> self.nodes@[i] == o.nodes@[i],
                forall|b: int| #[trigger] o.is_branch(b) && !o.collapsible(b) && o.under(b, ni) && b != ni && o.kid_node(b, ni) < node.first_child + k
                    ==> self.live(b) && self.nodes@[b] == o.nodes@[b],
                self.nodes.slots() == o.nodes.slots(),
                is_suffix(self.nodes.free_chain(), o.nodes.free_chain()),
                self.elm_rects == o.elm_rects,
                self.data == o.data,
                self.element_nodes == o.element_nodes,
                o.heads_ok(prefix_before(self.nodes.free_chain(), o.nodes.free_chain()), ni),
                forall|b: int| #[trigger] o.collapsible(b) && o.under(b, ni) && b != ni && o.kid_node(b, ni) < node.first_child + k
                    ==> o.covers_children(prefix_before(self.nodes.free_chain(), o.nodes.free_chain()), b),
            decreases 4 - k,
        {
            let ghost s = *self;
            let child = node.first_child + k;
            proof {
                o.lemma_node(ni);
                assert(o.child_ok(ni, 0) && o.child_ok(ni, 1) && o.child_ok(ni, 2) && o.child_ok(ni, 3));
                assert(o.child_ok(ni, k as int));
                assert(o.anc(child as int, 1) == o.parent@[o.anc(child as int, 0)]);
                assert(o.kid_node(child as int, ni) == child);
                assert(self.live(child as int));
                self.lemma_wf_unfold();
            }
            let cn = self.nodes.get(child).count;
            if cn == -1 {
                self.cleanup_node(child, depth + 1);
                proof {
                    self.lemma_cleanup_step(s, o, ni, k as int);
                }
            } else {
                proof {
                    assert forall|b: int| #[trigger] o.collapsible(b) && o.under(b, ni) && b != ni && o.kid_node(b, ni) < node.first_child + k + 1 implies self.is_leaf(b)
                        && self.nodes@[b] == empty_node() by {
                        o.lemma_kid(b, ni);
                        if o.kid_node(b, ni) == child {
                            assert(o.live(child as int));
                            o.lemma_node(child as int);
                            assert(self.nodes@[child as int] == o.nodes@[child as int]);
                            if b != child {
                                o.lemma_under_child(b, child as int);
                            }
                        }
                    }
                    assert forall|b: int| #[trigger] o.collapsible(b) && o.under(b, ni) && b != ni && o.kid_node(b, ni) < node.first_child + k + 1
                        implies o.covers_children(prefix_before(self.nodes.free_chain(), o.nodes.free_chain()), b) by {
                        o.lemma_kid(b, ni);
                        if o.kid_node(b, ni) == child {
                            assert(o.live(child as int));
                            o.lemma_node(child as int);
                            assert(self.nodes@[child as int] == o.nodes@[child as int]);
                            if b != child {
                                o.lemma_under_child(b, child as int);
                            }
                        }
                    }
                    assert forall|b: int| #[trigger] o.is_branch(b) && !o.collapsible(b) && o.under(b, ni) && b != ni && o.kid_node(b, ni) < node.first_child + k + 1
                        implies self.live(b) && self.nodes@[b] == o.nodes@[b] by {
                        o.lemma_kid(b, ni);
                        if o.kid_node(b, ni) == child {
                            assert(o.live(child as int));
                            o.lemma_node(child as int);
                            assert(self.nodes@[child as int] == o.nodes@[child as int]);
                            if b != child {
                                o.lemma_under_child(b, child as int);
                            }
                        }
                    }
                }
            }
            k = k + 1;
        }
        proof {
            assert forall|i: int| #[trigger] o.live(i) && !o.under(i, ni) implies self.live(i) && self.nodes@[i] == o.nodes@[i] by {}
            assert forall|b: int| #[trigger] o.collapsible(b) && o.under(b, ni) implies self.is_leaf(b) && self.nodes@[b] == empty_node() by {
                o.lemma_kid(b, ni);
            }
            assert forall|b: int| #[trigger] o.is_branch(b) && !o.collapsible(b) && o.under(b, ni) implies self.live(b) && self.nodes@[b] == o.nodes@[b] by {
                if b != ni {
                    o.lemma_kid(b, ni);
                }
            }
            assert forall|b: int| #[trigger] o.collapsible(b) && o.under(b, ni) implies o.covers_children(
                prefix_before(self.nodes.free_chain(), o.nodes.free_chain()),
                b,
            ) by {
                assert(b != ni);
                o.lemma_kid(b, ni);
            }
        }
    }

    /// Collapses every branch whose four children are empty leaves back
    /// into an empty leaf. Branches are checked before their subtrees, so
    /// one call collapses at most one level; call again for more.
    pub fn cleanup(&mut self)
        requires
            old(self).wf(),
        ensures
            final(self).wf(),
            final(self).elements() == old(self).elements(),
            final(self).root() == old(self).root(),
            final(self).capacity() == old(self).capacity(),
            final(self).node_ids().subset_of(old(self).node_ids()),
            forall|b: int| #[trigger] old(self).collapsible(b) ==> final(self).is_leaf(b) && final(self).stored_count(b) == 0,
            forall|i: int| #[trigger] final(self).node_ids().contains(i) && old(self).is_leaf(i) ==> final(self).is_leaf(i)
                && final(self).stored_count(i) == old(self).stored_count(i),
            forall|i: int| #[trigger] final(self).node_ids().contains(i) ==> final(self).region_of(i) == old(self).region_of(i),
            forall|b: int| #[trigger] old(self).is_branch(b) && !old(self).collapsible(b) ==> final(self).is_branch(b) && final(self).first_child(b)
                == old(self).first_child(b),
            forall|i: int| #[trigger] final(self).node_ids().contains(i) <==> (old(self).node_ids().contains(i) && !old(self).child_of_collapsible(i)),
            final(self).node_slots() == old(self).node_slots(),
            is_suffix(final(self).node_free_chain(), old(self).node_free_chain()),
            final(self).element_slots() == old(self).element_slots(),
            final(self).payload_slots() == old(self).payload_slots(),
            final(self).entry_slots() == old(self).entry_slots(),
            final(self).fresh_ids() == old(self).fresh_ids(),
            grouped(prefix_before(final(self).node_free_chain(), old(self).node_free_chain())),
            forall|g: int|
                0 <= g && 4 * g < prefix_before(final(self).node_free_chain(), old(self).node_free_chain()).len() ==> #[trigger] old(
                    self,
                ).collapsible_first(prefix_before(final(self).node_free_chain(), old(self).node_free_chain())[4 * g]),
            forall|b: int| #[trigger] old(self).collapsible(b) ==> old(self).covers_children(
                prefix_before(final(self).node_free_chain(), old(self).node_free_chain()),
                b,
            ),
            old(self).within_capacity() ==> final(self).within_capacity(),
    {
        proof {
            self.lemma_wf_unfold();
            self.lemma_node(0);
        }
        let ghost o = *self;
        self.cleanup_node(0, 0);
        proof {
            if o.within_capacity() {
                assert forall|l: int| #[trigger] self.is_leaf(l) && self.depth@[l] < MAX_DEPTH implies self.nodes@[l].count <= self.elements_per_node by {
                    assert(self.live(l));
                    assert(o.node_ids().contains(l));
                    o.lemma_node(l);
                    o.lemma_under_root(l);
                    if o.is_branch(l) {
                        if o.collapsible(l) {
                            assert(self.nodes@[l] == empty_node());
                        } else {
                            assert(self.nodes@[l] == o.nodes@[l]);
                        }
                    } else {
                        assert(o.is_leaf(l));
                        assert(self.nodes@[l] == o.nodes@[l]);
                        assert(self.depth@[l] == o.depth@[l]);
                    }
                }
            }
            let pre = prefix_before(self.node_free_chain(), o.node_free_chain());
            assert forall|g: int| 0 <= g && 4 * g < pre.len() implies #[trigger] o.collapsible_first(pre[4 * g]) by {
                assert(o.head_under(pre[4 * g], 0));
            }
            assert forall|b: int| #[trigger] o.collapsible(b) implies o.covers_children(pre, b) by {
                o.lemma_under_root(b);
            }
            self.lemma_wf_unfold();
            assert forall|b: int| #[trigger] o.is_branch(b) && !o.collapsible(b) implies self.is_branch(b) && self.first_child(b) == o.first_child(b) by {
                o.lemma_under_root(b);
            }
            assert forall|i: int| #[trigger] self.node_ids().contains(i) <==> (o.node_ids().contains(i) && !o.child_of_collapsible(i)) by {
                if self.node_ids().contains(i) && o.child_of_collapsible(i) {
                    let b = choose|b: int| o.collapsible(b) && o.first_child(b) <= i < o.first_child(b) + 4;
                    o.lemma_node(b);
                    o.lemma_node(0);
                    assert(o.child_ok(b, 0) && o.child_ok(b, 1) && o.child_ok(b, 2) && o.child_ok(b, 3));
                    assert(o.child_ok(b, i - o.fc(b)));
                    o.lemma_under_root(b);
                    assert(self.live(i));
                    self.lemma_node(i);
                }
                if o.node_ids().contains(i) && !o.child_of_collapsible(i) && i != 0 {
                    o.lemma_node(i);
                    let p = o.parent@[i];
                    o.lemma_node(p);
                    o.lemma_under_root(p);
                    assert(!o.collapsible(p));
                    assert(self.live(p) && self.nodes@[p] == o.nodes@[p]);
                    self.lemma_node(p);
                    assert(self.child_ok(p, 0) && self.child_ok(p, 1) && self.child_ok(p, 2) && self.child_ok(p, 3));
                    assert(self.child_ok(p, i - self.fc(p)));
                }
            }
            assert forall|b: int| #[trigger] o.collapsible(b) implies self.is_leaf(b) && self.stored_count(b) == 0 by {
                o.lemma_under_root(b);
            }
            assert forall|i: int| #[trigger] self.node_ids().contains(i) && o.is_leaf(i) implies self.is_leaf(i)
                && self.stored_count(i) == o.stored_count(i) by {
                assert(self.live(i));
            }
        }
    }

    /// Drops every element and payload but keeps the tree's nodes: each leaf
    /// becomes empty.
    pub fn clear(&mut self)
        requires
            old(self).wf(),
        ensures
            final(self).wf(),
            final(self).elements() == Map::<int, (T, Rect)>::empty(),
            final(self).root() == old(self).root(),
            final(self).capacity() == old(self).capacity(),
            final(self).node_ids() == old(self).node_ids(),
            forall|i: int| #[trigger] final(self).is_leaf(i) == old(self).is_leaf(i),
            forall|i: int| #[trigger] final(self).is_leaf(i) ==> final(self).stored_count(i) == 0,
            forall|i: int| #[trigger] old(self).is_branch(i) ==> final(self).is_branch(i) && final(self).first_child(i) == old(self).first_child(i),
            forall|i: int| #[trigger] final(self).region_of(i) == old(self).region_of(i),
            final(self).fresh_ids(),
            final(self).element_slots() == 0,
            final(self).entry_slots() == 0,
            !final(self).payload_store_full(),
            !final(self).element_store_full(),
            forall|i: int| #[trigger] final(self).is_leaf(i) ==> final(self).first_child(i) == -1,
            forall|i: int| #[trigger] old(self).is_branch(i) ==> final(self).stored_count(i) == -1,
            final(self).node_free_chain() == old(self).node_free_chain(),
            forall|i: int| #[trigger] final(self).depth_of(i) == old(self).depth_of(i),
            final(self).payload_slots() == 0,
            final(self).node_slots() == old(self).node_slots(),
            final(self).within_capacity(),
    {
        proof {
            self.lemma_wf_unfold();
            self.lemma_node(0);
        }
        let ghost o = *self;
        let leaves = self.find_leaves(0, self.root_rect, self.root_rect, 0);
        self.elm_rects.clear();
        self.data.clear();
        self.element_nodes.clear();
        let mut k: usize = 0;
        while k < leaves.len()
            invariant
                o.wf_structure(),
                self.nodes.wf(),
                self.nodes@.dom() == o.nodes@.dom(),
                self.nodes.free_chain() == o.nodes.free_chain(),
                self.nodes.slots() == o.nodes.slots(),
                forall|j: int| 0 <= j < leaves@.len() ==> o.leaf_found(#[trigger] leaves@[j], 0, o.root_rect),
                forall|i: int| #[trigger] self.nodes@.contains_key(i) ==> (self.nodes@[i] == o.nodes@[i] || (o.is_leaf(i) && self.nodes@[i]
                    == empty_node())),
                forall|j: int| 0 <= j < k ==> self.nodes@[(#[trigger] leaves@[j]).node_index as int] == empty_node(),
                0 <= k <= leaves@.len(),
                self.elm_rects.wf(),
                self.elm_rects@ == Map::<int, ElmRect>::empty(),
                self.elm_rects.slots() == 0,
                self.elm_rects.free_chain() == Seq::<int>::empty(),
                self.data.wf(),
                self.data@ == Map::<int, T>::empty(),
                self.data.slots() == 0,
                self.element_nodes.wf(),
                self.element_nodes.slots() == 0,
                self.root_rect == o.root_rect,
                self.max_depth == o.max_depth,
                self.elements_per_node == o.elements_per_node,
                self.query_tmp_buffer == o.query_tmp_buffer,
                self.depth == o.depth,
                self.region == o.region,
                self.parent == o.parent,
            decreases leaves@.len() - k,
        {
            let leaf = leaves[k];
            self.nodes.set(leaf.node_index, Node { first_child: -1, count: 0 });
            k = k + 1;
        }
        self.chain = Ghost(Map::new(|i: int| true, |i: int| Seq::<int>::empty()));
        proof {
            self.lemma_cleared(o, leaves@);
            assert forall|i: int| #[trigger] o.is_branch(i) implies self.stored_count(i) == -1 by {
                o.lemma_node(i);
            }
        }
    }

    proof fn lemma_cleared(&self, o: Self, leaves: Seq<Leaf>)
        requires
            o.wf(),
            self.nodes.wf(),
            self.nodes@.dom() == o.nodes@.dom(),
            self.nodes.free_chain() == o.nodes.free_chain(),
            forall|j: int| 0 <= j < leaves.len() ==> o.leaf_found(#[trigger] leaves[j], 0, o.root_rect),
            o.leaves_complete(leaves, 0, o.root_rect),
            forall|i: int| #[trigger] self.nodes@.contains_key(i) ==> (self.nodes@[i] == o.nodes@[i] || (o.is_leaf(i) && self.nodes@[i]
                == empty_node())),
            forall|j: int| 0 <= j < leaves.len() ==> self.nodes@[(#[trigger] leaves[j]).node_index as int] == empty_node(),
            self.elm_rects.wf(),
            self.elm_rects@ == Map::<int, ElmRect>::empty(),
            self.data.wf(),
            self.data@ == Map::<int, T>::empty(),
            self.element_nodes.wf(),
            self.chain@ == Map::new(|i: int| true, |i: int| Seq::<int>::empty()),
            self.root_rect == o.root_rect,
            self.max_depth == o.max_depth,
            self.elements_per_node == o.elements_per_node,
            self.query_tmp_buffer == o.query_tmp_buffer,
            self.depth == o.depth,
            self.region == o.region,
            self.parent == o.parent,
        ensures
            self.wf(),
            self.elements() == Map::<int, (T, Rect)>::empty(),
            self.node_ids() == o.node_ids(),
            forall|i: int| #[trigger] self.is_leaf(i) == o.is_leaf(i),
            forall|i: int| #[trigger] self.is_leaf(i) ==> self.nodes@[i] == empty_node(),
            forall|i: int| #[trigger] o.is_branch(i) ==> self.is_branch(i) && self.nodes@[i] == o.nodes@[i],
    {
        o.lemma_wf_unfold();
        assert forall|i: int| #[trigger] self.is_leaf(i) implies self.nodes@[i] == empty_node() by {
            assert(self.nodes@.contains_key(i));
            assert(o.is_leaf(i));
            o.lemma_node(i);
            o.lemma_under_root(i);
            lemma_quad_within(o.region@[i], 0);
            assert(overlaps(o.region@[i], o.root_rect));
            let j = choose|j: int| 0 <= j < leaves.len() && (#[trigger] leaves[j]).node_index == i;
        }
        assert forall|i: int| #[trigger] o.is_branch(i) implies self.is_branch(i) && self.nodes@[i] == o.nodes@[i] by {}
        assert forall|i: int| #[trigger] self.live(i) implies self.wf_node(i) by {
            o.lemma_node(i);
            if i != 0 {
                o.lemma_node(o.parent@[i]);
                assert(o.is_branch(o.parent@[i]));
            }
            if o.is_branch(i) {
                assert(o.child_ok(i, 0) && o.child_ok(i, 1) && o.child_ok(i, 2) && o.child_ok(i, 3));
                assert(self.child_ok(i, 0) && self.child_ok(i, 1) && self.child_ok(i, 2) && self.child_ok(i, 3));
            } else {
                assert(self.is_leaf(i));
                assert(self.wf_leaf(i)) by {
                    reveal(QuadTree::wf_leaf);
                }
            }
        }
        assert(self.nodes_ok()) by {
            reveal(QuadTree::nodes_ok);
        }
        assert(self.wf_free_nodes()) by {
            reveal(QuadTree::wf_free_nodes);
            assert(o.wf_free_nodes());
        }
        assert(self.elems_ok()) by {
            reveal(QuadTree::elems_ok);
        }
        assert(self.all_placed()) by {
            reveal(QuadTree::all_placed);
        }
        assert(self.elements() =~= Map::<int, (T, Rect)>::empty());
    }

    /// Every leaf with its depth and region.
    pub fn all_leaves(&self) -> (r: Vec<Leaf>)
        requires
            self.wf(),
        ensures
            forall|j: int|
                0 <= j < r@.len() ==> {
                    let lf = #[trigger] r@[j];
                    &&& self.is_leaf(lf.node_index as int)
                    &&& lf.rect == self.region_of(lf.node_index as int)
                    &&& lf.depth == self.depth_of(lf.node_index as int)
                },
            forall|l: int| #[trigger] self.is_leaf(l) ==> exists|j: int| 0 <= j < r@.len() && (#[trigger] r@[j]).node_index == l,
            forall|j1: int, j2: int| 0 <= j1 < j2 < r@.len() ==> (#[trigger] r@[j1]).node_index != (#[trigger] r@[j2]).node_index,
    {
        proof {
            self.lemma_wf_unfold();
            self.lemma_node(0);
        }
        let r = self.find_leaves(0, self.root_rect, self.root_rect, 0);
        proof {
            assert forall|l: int| #[trigger] self.is_leaf(l) implies exists|j: int| 0 <= j < r@.len() && (#[trigger] r@[j]).node_index == l by {
                self.lemma_node(l);
                self.lemma_under_root(l);
                lemma_quad_within(self.region@[l], 0);
                assert(overlaps(self.region@[l], self.root_rect));
            }
        }
        r
    }

    /// Appends the element ids in leaf `node_index`'s chain, in chain order.
    pub fn get_leaf_elements(&self, node_index: i32, data_vec: &mut Vec<i32>)
        requires
            self.wf(),
            self.is_leaf(node_index as int),
        ensures
            final(data_vec)@.map_values(|x: i32| x as int) == old(data_vec)@.map_values(|x: i32| x as int) + self.leaf_elements(
                node_index as int,
            ),
            self.leaf_elements(node_index as int).no_duplicates(),
    {
        let ghost l = node_index as int;
        let ghost c = self.chain@[l];
        let ghost v0 = data_vec@;
        proof {
            self.lemma_wf_unfold();
            self.lemma_node(l);
            reveal(QuadTree::wf_leaf);
            assert forall|i: int| 0 <= i < c.len() implies self.chain_link(l, i) by {}
            self.element_nodes.lemma_wf();
        }
        let mut cur = self.nodes.get(node_index).first_child;
        let ghost mut p: int = 0;
        while cur != -1
            invariant
                self.wf_structure(),
                c == self.chain@[l],
                forall|i: int| 0 <= i < c.len() ==> self.chain_link(l, i),
                forall|x: int| #[trigger] self.element_nodes@.contains_key(x) ==> 0 <= x,
                0 <= p <= c.len(),
                cur == (if p < c.len() { c[p] } else { -1 }),
                data_vec@.map_values(|x: i32| x as int) == v0.map_values(|x: i32| x as int) + c.subrange(0, p).map_values(
                    |x: int| self.element_nodes@[x].elm_id as int,
                ),
            decreases c.len() - p,
        {
            proof {
                if p >= c.len() {
                    assert(false);
                }
                assert(self.chain_link(l, p));
            }
            let en = *self.element_nodes.get(cur);
            let ghost prev = data_vec@;
            data_vec.push(en.elm_id);
            proof {
                assert(data_vec@.map_values(|x: i32| x as int) =~= prev.map_values(|x: i32| x as int).push(en.elm_id as int));
                assert(c.subrange(0, p + 1).map_values(|x: int| self.element_nodes@[x].elm_id as int) =~= c.subrange(0, p).map_values(
                    |x: int| self.element_nodes@[x].elm_id as int,
                ).push(en.elm_id as int));
                assert(data_vec@.map_values(|x: i32| x as int) =~= v0.map_values(|x: i32| x as int) + c.subrange(0, p + 1).map_values(
                    |x: int| self.element_nodes@[x].elm_id as int,
                ));
                p = p + 1;
            }
            cur = en.next;
        }
        proof {
            if p < c.len() {
                assert(self.chain_link(l, p));
            }
            assert(c.subrange(0, p) =~= c);
            self.lemma_placement();
        }
    }

    /// Sets the leaf capacity above which leaves split, at least 1.
    pub fn set_elements_per_node(&mut self, npc: i32)
        requires
            old(self).wf(),
        ensures
            final(self).wf(),
            final(self).capacity() == if npc > 1 { npc as int } else { 1 },
            final(self).elements() == old(self).elements(),
            final(self).node_ids() == old(self).node_ids(),
            final(self).root() == old(self).root(),
            forall|i: int| #[trigger] final(self).is_leaf(i) == old(self).is_leaf(i),
            forall|i: int| #[trigger] final(self).region_of(i) == old(self).region_of(i),
            forall|i: int| #[trigger] final(self).leaf_elements(i) == old(self).leaf_elements(i),
            forall|i: int| #[trigger] final(self).stored_count(i) == old(self).stored_count(i),
            forall|i: int| #[trigger] final(self).first_child(i) == old(self).first_child(i),
            forall|i: int| #[trigger] final(self).depth_of(i) == old(self).depth_of(i),
            forall|i: int, e: int| #[trigger] final(self).leaf_holds(i, e) == old(self).leaf_holds(i, e),
            final(self).element_slots() == old(self).element_slots(),
            final(self).fresh_ids() == old(self).fresh_ids(),
            final(self).entry_slots() == old(self).entry_slots(),
            final(self).payload_slots() == old(self).payload_slots(),
            final(self).node_slots() == old(self).node_slots(),
            final(self).payload_store_full() == old(self).payload_store_full(),
            final(self).element_store_full() == old(self).element_store_full(),
            final(self).node_free_chain() == old(self).node_free_chain(),
            old(self).within_capacity() && npc >= old(self).capacity() ==> final(self).within_capacity(),
    {
        let ghost o = *self;
        self.elements_per_node = if npc > 1 { npc } else { 1 };
        proof {
            o.lemma_wf_unfold();
            self.lemma_buffer_only(o);
        }
    }

    /// The number of element slots, live and free: every element id is
    /// below it.
    pub fn max_element_id(&self) -> (r: usize)
        requires
            self.wf(),
        ensures
            r == self.element_slots(),
            forall|e: int| #[trigger] self.elements().contains_key(e) ==> 0 <= e < r,
    {
        proof {
            self.lemma_wf_unfold();
            self.elm_rects.lemma_wf();
        }
        self.elm_rects.data_len() as usize
    }

    pub closed spec fn element_slots(&self) -> nat {
        self.elm_rects.slots()
    }

    /// The number of live nodes, branches and leaves.
    pub fn node_count(&self) -> (r: i32)
        requires
            self.wf(),
        ensures
            r == self.node_ids().len(),
    {
        proof {
            self.lemma_wf_unfold();
            self.nodes.lemma_len();
        }
        self.nodes.elements_count()
    }

    /// The number of live elements.
    pub fn element_count(&self) -> (r: i32)
        requires
            self.wf(),
        ensures
            r == self.elements().dom().len(),
    {
        proof {
            self.lemma_wf_unfold();
            self.elm_rects.lemma_len();
            assert(self.elements().dom() =~= self.elm_rects@.dom());
        }
        self.elm_rects.elements_count()
    }

    // ----- laws -----

    /// Every leaf's `count` is the length of its element chain.
    pub proof fn lemma_count_is_chain_length(&self)
        requires
            self.wf(),
        ensures
            forall|l: int| #[trigger] self.is_leaf(l) ==> self.stored_count(l) == self.leaf_elements(l).len(),
            forall|l: int| #[trigger] self.is_leaf(l) && self.stored_count(l) == 0 ==> self.first_child(l) == -1,
    {
        assert forall|l: int| #[trigger] self.is_leaf(l) implies self.stored_count(l) == self.leaf_elements(l).len() && (self.stored_count(l) == 0
            ==> self.first_child(l) == -1) by {
            self.lemma_node(l);
            reveal(QuadTree::wf_leaf);
        }
    }

    /// The root is a region and node 0, a leaf or a branch at depth 0; every
    /// node lies within the root at depth at most `MAX_DEPTH`, and branches
    /// lie above that depth.
    pub proof fn lemma_depth_bound(&self)
        requires
            self.wf(),
        ensures
            is_region(self.root()),
            self.node_ids().contains(0),
            self.depth_of(0) == 0,
            self.region_of(0) == self.root(),
            forall|i: int| #[trigger] self.node_ids().contains(i) ==> {
                &&& 0 <= self.depth_of(i) <= MAX_DEPTH
                &&& is_region(self.region_of(i))
                &&& within(self.region_of(i), self.root())
                &&& (self.is_leaf(i) || self.is_branch(i))
                &&& (self.is_branch(i) ==> self.depth_of(i) < MAX_DEPTH)
            },
    {
        self.lemma_node(0);
        assert forall|i: int| #[trigger] self.node_ids().contains(i) implies {
            &&& 0 <= self.depth_of(i) <= MAX_DEPTH
            &&& is_region(self.region_of(i))
            &&& within(self.region_of(i), self.root())
            &&& (self.is_leaf(i) || self.is_branch(i))
            &&& (self.is_branch(i) ==> self.depth_of(i) < MAX_DEPTH)
        } by {
            self.lemma_node(i);
            self.lemma_under_root(i);
        }
    }

    /// A leaf's element ids are those of `leaf_holds`.
    proof fn lemma_leaf_elements_holds(&self, l: int, e: int)
        ensures
            self.leaf_elements(l).contains(e) == self.leaf_holds(l, e),
    {
        let c = self.chain@[l];
        let s = self.leaf_elements(l);
        if s.contains(e) {
            let k = choose|k: int| 0 <= k < s.len() && s[k] == e;
            assert(self.element_nodes@[c[k]].elm_id == e);
        }
        if self.leaf_holds(l, e) {
            let k = choose|k: int| 0 <= k < c.len() && #[trigger] self.element_nodes@[c[k]].elm_id == e;
            assert(s[k] == e);
        }
    }

    /// Every live element is in exactly the leaves whose region its
    /// rectangle overlaps, and every id in a leaf is a live element.
    pub proof fn lemma_placement(&self)
        requires
            self.wf(),
        ensures
            forall|e: int, l: int|
                self.elements().contains_key(e) && #[trigger] self.is_leaf(l) ==> (#[trigger] self.leaf_elements(l).contains(e) <==> overlaps(
                    self.region_of(l),
                    self.elements()[e].1,
                )),
            forall|e: int, l: int| #[trigger] self.is_leaf(l) && #[trigger] self.leaf_elements(l).contains(e) ==> self.elements().contains_key(e),
            forall|l: int| #[trigger] self.is_leaf(l) ==> self.leaf_elements(l).no_duplicates(),
    {
        assert forall|l: int| #[trigger] self.is_leaf(l) implies self.leaf_elements(l).no_duplicates() by {
            self.lemma_node(l);
            reveal(QuadTree::wf_leaf);
            let c = self.chain@[l];
            let sq = self.leaf_elements(l);
            assert forall|a: int, b: int| 0 <= a < b < sq.len() implies sq[a] != sq[b] by {
                assert(self.entry(c[a]).elm_id != self.entry(c[b]).elm_id);
            }
        }
        reveal(QuadTree::all_placed);
        assert forall|e: int, l: int|
            self.elements().contains_key(e) && #[trigger] self.is_leaf(l) implies (#[trigger] self.leaf_elements(l).contains(e) <==> overlaps(
                self.region_of(l),
                self.elements()[e].1,
            )) by {
            self.lemma_leaf_elements_holds(l, e);
            assert(self.placed(e));
        }
        assert forall|e: int, l: int| #[trigger] self.is_leaf(l) && #[trigger] self.leaf_elements(l).contains(e) implies self.elements().contains_key(e) by {
            self.lemma_leaf_elements_holds(l, e);
            self.lemma_node(l);
            reveal(QuadTree::wf_leaf);
            let c = self.chain@[l];
            let k = choose|k: int| 0 <= k < c.len() && #[trigger] self.element_nodes@[c[k]].elm_id == e;
            assert(self.chain_link(l, k));
        }
    }

    /// Child `k` of branch `b` is the live node `first_child + k`, one level
    /// down, over quadrant `k` of the branch's region.
    pub open spec fn child_in_place(&self, b: int, k: int) -> bool {
        &&& self.node_ids().contains(self.first_child(b) + k)
        &&& self.region_of(self.first_child(b) + k) == quad(self.region_of(b), k)
        &&& self.depth_of(self.first_child(b) + k) == self.depth_of(b) + 1
    }

    /// A branch's four children sit at `first_child .. first_child + 4`,
    /// one level down, over its four quadrants in order.
    pub proof fn lemma_children_consecutive(&self)
        requires
            self.wf(),
        ensures
            forall|b: int, k: int| self.is_branch(b) && 0 <= k < 4 ==> #[trigger] self.child_in_place(b, k),
    {
        assert forall|b: int, k: int| self.is_branch(b) && 0 <= k < 4 implies #[trigger] self.child_in_place(b, k) by {
            self.lemma_node(b);
            assert(self.child_ok(b, 0) && self.child_ok(b, 1) && self.child_ok(b, 2) && self.child_ok(b, 3));
            assert(self.child_ok(b, k));
        }
    }

    /// A tree without elements has only empty leaves.
    pub proof fn lemma_no_elements_empty_leaves(&self)
        requires
            self.wf(),
            self.elements() == Map::<int, (T, Rect)>::empty(),
        ensures
            forall|l: int| #[trigger] self.is_leaf(l) ==> self.leaf_elements(l).len() == 0 && self.stored_count(l) == 0 && self.first_child(l) == -1,
    {
        self.lemma_count_is_chain_length();
        assert forall|l: int| #[trigger] self.is_leaf(l) implies self.leaf_elements(l).len() == 0 && self.stored_count(l) == 0 && self.first_child(l) == -1 by {
            self.lemma_placement();
            if self.leaf_elements(l).len() > 0 {
                assert(self.leaf_elements(l).contains(self.leaf_elements(l)[0]));
                assert(!self.elements().contains_key(self.leaf_elements(l)[0]));
            }
        }
    }

    /// Inserting an element and removing it again gives back the elements
    /// there were; from a tree without elements, every leaf is empty again.
    pub proof fn lemma_insert_remove_round_trip(t0: Self, t1: Self, t2: Self, id: int, v: T, r: Rect)
        requires
            t0.wf(),
            t2.wf(),
            !t0.elements().contains_key(id),
            t1.elements() == t0.elements().insert(id, (v, r)),
            t2.elements() == t1.elements().remove(id),
        ensures
            t2.elements() == t0.elements(),
            t0.elements() == Map::<int, (T, Rect)>::empty() ==> forall|l: int|
                #[trigger] t2.is_leaf(l) ==> t2.leaf_elements(l).len() == 0 && t2.stored_count(l) == 0 && t2.first_child(l) == -1,
    {
        assert(t2.elements() =~= t0.elements());
        if t0.elements() == Map::<int, (T, Rect)>::empty() {
            t2.lemma_no_elements_empty_leaves();
        }
    }

    /// Some leaf under node `n` holds point `p` of `n`'s region.
    proof fn lemma_leaf_at(&self, n: int, x: i32, y: i32) -> (l: int)
        requires
            self.wf_structure(),
            self.live(n),
            overlaps(self.region@[n], Rect { left: x, right: x, top: y, bottom: y }),
        ensures
            self.is_leaf(l),
            overlaps(self.region@[l], Rect { left: x, right: x, top: y, bottom: y }),
        decreases MAX_DEPTH - self.depth@[n],
    {
        self.lemma_node(n);
        if self.is_leaf(n) {
            n
        } else {
            let p = Rect { left: x, right: x, top: y, bottom: y };
            lemma_quad_cover(self.region@[n], p);
            assert(self.child_ok(n, 0) && self.child_ok(n, 1) && self.child_ok(n, 2) && self.child_ok(n, 3));
            let k = if overlaps(quad(self.region@[n], 0), p) {
                0
            } else if overlaps(quad(self.region@[n], 1), p) {
                1
            } else if overlaps(quad(self.region@[n], 2), p) {
                2
            } else {
                3int
            };
            assert(self.child_ok(n, k));
            self.lemma_leaf_at(self.fc(n) + k, x, y)
        }
    }

    /// For a query rectangle inside the root, the reported elements are
    /// exactly the live, not omitted elements whose rectangle overlaps it,
    /// whatever shape the tree has.
    pub proof fn lemma_query_exact(&self, q: Rect, omit: int)
        requires
            self.wf(),
            is_normal(q),
            within(q, self.root()),
        ensures
            forall|e: int| #[trigger] self.reported(e, q, omit) <==> (self.elements().contains_key(e) && e != omit && overlaps(q, self.elements()[e].1)),
    {
        reveal(QuadTree::all_placed);
        assert forall|e: int| #[trigger] self.reported(e, q, omit) <==> (self.elements().contains_key(e) && e != omit && overlaps(q, self.elements()[e].1)) by {
            if self.elements().contains_key(e) && e != omit && overlaps(q, self.elements()[e].1) {
                let r = self.erect(e);
                assert(is_normal(r)) by {
                    reveal(QuadTree::elems_ok);
                }
                let x = if q.left >= r.left { q.left } else { r.left };
                let y = if q.bottom >= r.bottom { q.bottom } else { r.bottom };
                let pt = Rect { left: x, right: x, top: y, bottom: y };
                self.lemma_node(0);
                let l = self.lemma_leaf_at(0, x, y);
                assert(self.placed(e));
                assert(overlaps(self.region@[l], r));
                assert(self.leaf_holds(l, e));
                assert(overlaps(self.region_of(l), q));
            }
        }
    }

    /// Two trees over the same root with the same elements answer every
    /// query inside the root alike.
    pub proof fn lemma_same_elements_same_answers(t1: Self, t2: Self, q: Rect, omit: int)
        requires
            t1.wf(),
            t2.wf(),
            t1.root() == t2.root(),
            t1.elements() == t2.elements(),
            is_normal(q),
            within(q, t1.root()),
        ensures
            forall|e: int| #[trigger] t1.reported(e, q, omit) <==> t2.reported(e, q, omit),
    {
        t1.lemma_query_exact(q, omit);
        t2.lemma_query_exact(q, omit);
    }

    /// Two trees that hold the same elements and hand out ids alike still
    /// do so after the same insertion into each: after `clear` (or `new`),
    /// the same insertions give the same elements, and so (see
    /// `lemma_same_elements_same_answers`) the same query answers.
    pub proof fn lemma_insert_keeps_alike(t1: Self, t2: Self, u1: Self, u2: Self, id1: int, id2: int, v: T, r: Rect)
        requires
            t1.elements() == t2.elements(),
            t1.fresh_ids(),
            t2.fresh_ids(),
            t1.element_slots() == t2.element_slots(),
            id1 == t1.element_slots(),
            id2 == t2.element_slots(),
            u1.elements() == t1.elements().insert(id1, (v, r)),
            u2.elements() == t2.elements().insert(id2, (v, r)),
            u1.fresh_ids(),
            u2.fresh_ids(),
            u1.element_slots() == t1.element_slots() + 1,
            u2.element_slots() == t2.element_slots() + 1,
        ensures
            id1 == id2,
            u1.elements() == u2.elements(),
            u1.element_slots() == u2.element_slots(),
            u1.fresh_ids() && u2.fresh_ids(),
    {
    }

    // ----- public interface -----

    /// An empty tree over `rect`: a single empty leaf, the root, at node 0.
    pub fn new(rect: Rect) -> (r: Self)
        requires
            is_region(rect),
        ensures
            r.wf(),
            r.elements() == Map::<int, (T, Rect)>::empty(),
            r.root() == rect,
            r.node_ids() == set![0int],
            r.is_leaf(0),
            r.leaf_elements(0) == Seq::<int>::empty(),
            r.capacity() == DEFAULT_ELEMENTS_PER_NODE,
            r.fresh_ids(),
            r.element_slots() == 0,
            r.entry_slots() == 0,
            !r.payload_store_full(),
            !r.element_store_full(),
            r.first_child(0) == -1,
            r.stored_count(0) == 0,
            r.depth_of(0) == 0,
            r.region_of(0) == rect,
            r.node_free_chain() == Seq::<int>::empty(),
            r.payload_slots() == 0,
            r.node_slots() == 1,
            r.within_capacity(),
    {
        let mut nodes: FreeList<Node> = FreeList::new();
        nodes.insert(Node { first_child: -1, count: 0 });
        let r = QuadTree {
            elm_rects: FreeList::new(),
            element_nodes: FreeList::new(),
            nodes,
            data: FreeList::new(),
            root_rect: rect,
            max_depth: MAX_DEPTH,
            elements_per_node: DEFAULT_ELEMENTS_PER_NODE,
            query_tmp_buffer: Vec::new(),
            depth: Ghost(Map::empty().insert(0int, 0int)),
            region: Ghost(Map::empty().insert(0int, rect)),
            parent: Ghost(Map::empty()),
            chain: Ghost(Map::empty().insert(0int, Seq::<int>::empty())),
            owner: Ghost(Map::empty()),
        };
        proof {
            reveal(QuadTree::nodes_ok);
            reveal(QuadTree::wf_leaf);
            reveal(QuadTree::wf_free_nodes);
            reveal(QuadTree::elems_ok);
            reveal(QuadTree::all_placed);
            assert(r.wf_node(0));
            assert(r.elements() =~= Map::<int, (T, Rect)>::empty());
            assert(r.node_ids() =~= set![0int]);
            assert(r.leaf_elements(0) =~= Seq::<int>::empty());
        }
        r
    }

    proof fn lemma_added(&self, before: Self, e: int, d: int, v: T, rect: Rect)
        requires
            before.wf(),
            is_normal(rect),
            !before.elm_rects@.contains_key(e),
            !before.data@.contains_key(d),
            0 <= d <= i32::MAX,
            self.elm_rects.wf(),
            self.data.wf(),
            self.elm_rects@ == before.elm_rects@.insert(e, ElmRect { data_id: d as i32, rect }),
            self.data@ == before.data@.insert(d, v),
            self.nodes == before.nodes,
            self.element_nodes == before.element_nodes,
            self.root_rect == before.root_rect,
            self.max_depth == before.max_depth,
            self.elements_per_node == before.elements_per_node,
            self.query_tmp_buffer == before.query_tmp_buffer,
            self.depth == before.depth,
            self.region == before.region,
            self.parent == before.parent,
            self.chain == before.chain,
            self.owner == before.owner,
        ensures
            self.wf_structure(),
            self.placed_except(e),
            self.half_placed(e),
            forall|l: int| #[trigger] self.is_leaf(l) ==> !self.leaf_has(l, e),
            self.elements() == before.elements().insert(e, (v, rect)),
    {
        reveal(QuadTree::elems_ok);
        reveal(QuadTree::all_placed);
        reveal(QuadTree::placed_except);
        assert forall|i: int| #[trigger] self.live(i) implies self.wf_node(i) by {
            before.lemma_node(i);
            if i != 0 {
                before.lemma_node(before.parent@[i]);
            }
            if before.is_branch(i) {
                assert(before.child_ok(i, 0));
                assert(before.child_ok(i, 1));
                assert(before.child_ok(i, 2));
                assert(before.child_ok(i, 3));
            }
            if before.is_leaf(i) {
                reveal(QuadTree::wf_leaf);
                let c = before.chain@[i];
                assert forall|k: int| 0 <= k < c.len() implies {
                    &&& self.element_nodes@.contains_key(#[trigger] c[k])
                    &&& self.entry(c[k]) == before.entry(c[k])
                    &&& self.owner@[c[k]] == before.owner@[c[k]]
                    &&& self.elm_rects@.contains_key(before.entry(c[k]).elm_id as int)
                } by {
                    assert(before.chain_link(i, k));
                }
                assert(self.same_chain(before, i));
            }
            self.lemma_node_frame(before, i);
        }
        assert(self.nodes_ok()) by {
            reveal(QuadTree::nodes_ok);
        }
        assert(self.wf_free_nodes()) by {
            reveal(QuadTree::wf_free_nodes);
        }
        assert forall|d2: int| #[trigger] self.data@.contains_key(d2) implies exists|e1: int| #[trigger] self.elm_rects@.contains_key(e1) && self.elm_rects@[e1].data_id == d2 by {
            if d2 != d {
                let e1 = choose|e1: int| #[trigger] before.elm_rects@.contains_key(e1) && before.elm_rects@[e1].data_id == d2;
                assert(self.elm_rects@.contains_key(e1));
            } else {
                assert(self.elm_rects@.contains_key(e));
            }
        }
        assert(self.elems_ok());
        assert forall|l: int| #[trigger] self.is_leaf(l) implies !self.leaf_has(l, e) by {
            before.lemma_node(l);
            reveal(QuadTree::wf_leaf);
            if self.leaf_has(l, e) {
                let k = choose|k: int| 0 <= k < self.chain@[l].len() && #[trigger] self.element_nodes@[self.chain@[l][k]].elm_id == e;
                assert(before.chain_link(l, k));
            }
        }
        assert forall|e2: int| #[trigger] self.elm_rects@.contains_key(e2) && e2 != e implies self.placed(e2) by {
            assert(before.placed(e2));
            assert forall|l: int| #[trigger] self.is_leaf(l) implies (self.leaf_has(l, e2) <==> overlaps(self.region@[l], self.erect(e2))) by {
                assert(before.is_leaf(l));
            }
        }
        assert(self.elements() =~= before.elements().insert(e, (v, rect)));
    }

    /// No element slot is free, so the next element id is `element_slots()`.
    pub closed spec fn fresh_ids(&self) -> bool {
        self.elm_rects.free_chain().len() == 0
    }

    /// The payload store has no free slot and no `i32` index left.
    pub closed spec fn payload_store_full(&self) -> bool {
        self.data.free_chain().len() == 0 && self.data.slots() == i32::MAX
    }

    /// The element store has no free slot and no `i32` index left.
    pub closed spec fn element_store_full(&self) -> bool {
        self.elm_rects.free_chain().len() == 0 && self.elm_rects.slots() == i32::MAX
    }

    /// Number of payload slots, live and free.
    pub closed spec fn payload_slots(&self) -> nat {
        self.data.slots()
    }

    /// Number of node slots, live and free.
    pub closed spec fn node_slots(&self) -> nat {
        self.nodes.slots()
    }

    /// The stores have room for everything one insertion can allocate: a
    /// payload, an element, and per node a descent can visit, four chain
    /// entries per element slot plus one, and four nodes.
    pub open spec fn insert_fits(&self) -> bool {
        &&& self.payload_slots() < i32::MAX
        &&& self.element_slots() < i32::MAX
        &&& self.entry_slots() + descent_calls(0) * (4 * (self.element_slots() + 1) + 1) <= i32::MAX
        &&& self.node_slots() + 4 * descent_calls(0) <= i32::MAX
    }

    /// Number of chain-entry slots, live and free.
    pub closed spec fn entry_slots(&self) -> nat {
        self.element_nodes.slots()
    }

    /// The free node slots, in the order the next splits reuse them.
    pub closed spec fn node_free_chain(&self) -> Seq<int> {
        self.nodes.free_chain()
    }

    /// The chain-entry store has used up every `i32` index.
    pub closed spec fn entry_store_exhausted(&self) -> bool {
        self.element_nodes.slots() == i32::MAX
    }

    /// Indexes `element` under `element_rect`: stores the payload and the
    /// rectangle, and adds the element to every leaf whose region the
    /// rectangle overlaps, splitting full leaves on the way. Returns the new
    /// element id, or `-1`, with the tree unchanged, when a store has run out
    /// of `i32` indices.
    pub fn insert(&mut self, element: T, element_rect: Rect) -> (r: i32)
        requires
            old(self).wf(),
            is_normal(element_rect),
        ensures
            final(self).wf(),
            final(self).root() == old(self).root(),
            final(self).capacity() == old(self).capacity(),
            r >= 0 ==> !old(self).elements().contains_key(r as int) && final(self).elements() == old(self).elements().insert(
                r as int,
                (element, element_rect),
            ),
            r < 0 ==> r == -1 && final(self).elements() == old(self).elements(),
            r < 0 ==> old(self).payload_store_full() || old(self).element_store_full() || final(self).entry_store_exhausted(),
            r >= 0 && old(self).fresh_ids() ==> r == old(self).element_slots() && final(self).fresh_ids() && final(self).element_slots()
                == old(self).element_slots() + 1,
            old(self).insert_fits() ==> r >= 0,
            forall|i: int| #[trigger] old(self).is_leaf(i) && (old(self).stored_count(i) < old(self).capacity() || old(self).depth_of(i) >= MAX_DEPTH)
                ==> final(self).is_leaf(i),
            old(self).insert_fits() && old(self).within_capacity() ==> final(self).within_capacity(),
            r >= 0 ==> is_suffix(old(self).node_free_chain(), final(self).node_free_chain()),
            r >= 0 ==> forall|i: int| #[trigger] final(self).node_ids().contains(i) && !old(self).node_ids().contains(i) ==> prefix_before(
                old(self).node_free_chain(),
                final(self).node_free_chain(),
            ).contains(i) || old(self).node_slots() <= i,
            r >= 0 ==> forall|i: int| #[trigger] final(self).node_ids().contains(i) && !old(self).node_ids().contains(i) ==> {
                let p = final(self).parent_of(i);
                &&& final(self).is_branch(p)
                &&& final(self).first_child(p) <= i < final(self).first_child(p) + 4
                &&& ((old(self).is_leaf(p) && old(self).stored_count(p) >= old(self).capacity() && old(self).depth_of(p) < MAX_DEPTH)
                    || !old(self).node_ids().contains(p))
            },
            old(self).insert_fits() ==> forall|l: int|
                #[trigger] final(self).leaf_holds(l, r as int) && final(self).is_leaf(l) && final(self).depth_of(l) < MAX_DEPTH
                    ==> final(self).stored_count(l) <= final(self).capacity(),
            r >= 0 ==> {
                &&& final(self).payload_slots() <= old(self).payload_slots() + 1
                &&& final(self).element_slots() <= old(self).element_slots() + 1
                &&& final(self).entry_slots() <= old(self).entry_slots() + descent_calls(0) * (4 * (old(self).element_slots() + 1) + 1)
                &&& final(self).node_slots() <= old(self).node_slots() + 4 * descent_calls(0)
            },
    {
        if !self.data.has_room() || !self.elm_rects.has_room() {
            proof {
                self.lemma_wf_unfold();
                self.data.lemma_wf();
                self.elm_rects.lemma_wf();
            }
            return -1;
        }
        let ghost before = *self;
        proof {
            self.data.lemma_wf();
            self.elm_rects.lemma_wf();
        }
        let data_id = self.data.insert(element);
        let element_id = self.elm_rects.insert(ElmRect { data_id, rect: element_rect });
        proof {
            self.lemma_added(before, element_id as int, data_id as int, element, element_rect);
            self.lemma_node(0);
        }
        let ghost s1 = *self;
        proof {
            let c0 = descent_calls(0);
            lemma_descent_calls_pos(0);
            let e1 = self.elm_rects.slots() as int;
            let e0 = before.elm_rects.slots() as int;
            assert(e1 <= e0 + 1);
            assert(c0 * (4 * e1 + 1) <= c0 * (4 * (e0 + 1) + 1)) by (nonlinear_arith)
                requires
                    c0 >= 1,
                    0 <= e1 <= e0 + 1,
            ;
        }
        let mut ok = true;
        if self.root_rect.intersect(element_rect) {
            proof {
                assert forall|l: int| #[trigger] self.is_leaf(l) && self.under(l, 0) implies !self.leaf_has(l, element_id as int) by {}
            }
            ok = self.node_insert(element_id, 0, self.root_rect, 0);
            proof {
                assert forall|i: int| #[trigger] s1.is_leaf(i) implies self.keeps_leaf(s1, i) by {}
                if old(self).insert_fits() && old(self).within_capacity() {
                    assert forall|l: int| #[trigger] s1.is_leaf(l) && s1.under(l, 0) implies s1.cap_all_ok(l) by {
                        assert(before.is_leaf(l));
                    }
                    assert(self.within_capacity()) by {
                        assert forall|l: int| #[trigger] self.is_leaf(l) && self.depth@[l] < MAX_DEPTH implies self.nodes@[l].count <= self.elements_per_node by {
                            self.lemma_under_root(l);
                            assert(self.cap_all_ok(l));
                        }
                    }
                }
            }
        }
        proof {
            assert forall|i: int| #[trigger] before.is_leaf(i) && (before.stored_count(i) < before.capacity() || before.depth_of(i) >= MAX_DEPTH)
                implies self.is_leaf(i) by {
                assert(s1.is_leaf(i));
                assert(self.keeps_leaf(s1, i));
            }
        }
        if !ok {
            self.detach(element_id);
            proof {
                assert(self.elements() =~= before.elements());
            }
            return -1;
        }
        proof {
            self.lemma_inserted(s1, element_id as int);
            if !overlaps(s1.root_rect, s1.erect(element_id as int)) {
                assert(before.nodes.free_chain().subrange(0, before.nodes.free_chain().len() as int) =~= before.nodes.free_chain());
            }
            assert(is_suffix(before.nodes.free_chain(), self.nodes.free_chain()));
            assert forall|i: int| #[trigger] self.node_ids().contains(i) && !before.node_ids().contains(i) implies prefix_before(
                before.node_free_chain(),
                self.node_free_chain(),
            ).contains(i) || before.node_slots() <= i by {
                self.lemma_wf_unfold();
                before.lemma_wf_unfold();
                self.nodes.lemma_wf();
                before.nodes.lemma_wf();
                let f0 = before.nodes.free_chain();
                let f1 = self.nodes.free_chain();
                let pre = prefix_before(f0, f1);
                if i < before.node_slots() {
                    assert(f0.contains(i));
                    let t = choose|t: int| 0 <= t < f0.len() && f0[t] == i;
                    if t >= pre.len() {
                        assert(f0.subrange(f0.len() - f1.len(), f0.len() as int)[t - pre.len()] == f0[t]);
                        assert(f1[t - pre.len()] == i);
                        assert(f1.contains(i));
                    } else {
                        assert(pre[t] == i);
                    }
                }
            }
            assert forall|i: int| #[trigger] self.node_ids().contains(i) && !before.node_ids().contains(i) implies {
                let p = self.parent_of(i);
                &&& self.is_branch(p)
                &&& self.first_child(p) <= i < self.first_child(p) + 4
                &&& ((before.is_leaf(p) && before.stored_count(p) >= before.capacity() && before.depth_of(p) < MAX_DEPTH)
                    || !before.node_ids().contains(p))
            } by {
                self.lemma_wf_unfold();
                before.lemma_wf_unfold();
                before.lemma_node(0);
                assert(self.live(i));
                assert(!s1.live(i));
                assert(self.born_of_split(s1, i));
                self.lemma_node(i);
            }
            if old(self).insert_fits() && old(self).within_capacity() && !overlaps(s1.root_rect, s1.erect(element_id as int)) {
                assert(self.within_capacity()) by {
                    assert forall|l: int| #[trigger] self.is_leaf(l) && self.depth@[l] < MAX_DEPTH implies self.nodes@[l].count <= self.elements_per_node by {
                        assert(before.is_leaf(l));
                    }
                }
            }
            if old(self).insert_fits() {
                assert forall|l: int|
                    #[trigger] self.leaf_holds(l, element_id as int) && self.is_leaf(l) && self.depth_of(l) < MAX_DEPTH implies self.stored_count(l)
                    <= self.capacity() by {
                    self.lemma_wf_unfold();
                    self.lemma_under_root(l);
                    if !overlaps(s1.root_rect, s1.erect(element_id as int)) {
                        assert(*self == s1);
                    } else {
                        assert(self.cap_ok(l, element_id as int));
                    }
                }
            }
        }
        element_id
    }

    proof fn lemma_inserted(&self, s1: Self, e: int)
        requires
            s1.wf_structure(),
            s1.elm_rects@.contains_key(e),
            forall|l: int| #[trigger] s1.is_leaf(l) ==> !s1.leaf_has(l, e),
            s1.placed_except(e),
            s1.half_placed(e),
            !overlaps(s1.root_rect, s1.erect(e)) ==> *self == s1,
            overlaps(s1.root_rect, s1.erect(e)) ==> self.descent_frame(s1, 0, e) && forall|l: int|
                #[trigger] self.is_leaf(l) && self.under(l, 0) && overlaps(self.region@[l], self.erect(e)) ==> self.leaf_has(l, e),
        ensures
            self.wf(),
            self.elements() == s1.elements(),
            self.root_rect == s1.root_rect,
            self.elements_per_node == s1.elements_per_node,
    {
        reveal(QuadTree::all_placed);
        reveal(QuadTree::placed_except);
        assert forall|l: int| #[trigger] self.is_leaf(l) implies (self.leaf_has(l, e) <==> overlaps(self.region@[l], self.erect(e))) by {
            self.lemma_under_root(l);
            if !overlaps(s1.root_rect, s1.erect(e)) {
                if overlaps(self.region@[l], self.erect(e)) {
                    lemma_overlaps_within(self.region@[l], self.root_rect, self.erect(e));
                }
            }
        }
        assert(self.placed(e));
        assert(self.elements() =~= s1.elements());
    }

    /// Removes element `element_id` from every leaf that holds it, then
    /// frees the element and its payload. The tree's shape is kept (see
    /// `cleanup`).
    pub fn remove(&mut self, element_id: i32)
        requires
            old(self).wf(),
            old(self).elements().contains_key(element_id as int),
        ensures
            final(self).wf(),
            final(self).elements() == old(self).elements().remove(element_id as int),
            final(self).root() == old(self).root(),
            final(self).capacity() == old(self).capacity(),
            final(self).node_ids() == old(self).node_ids(),
            forall|i: int| #[trigger] final(self).is_leaf(i) == old(self).is_leaf(i),
            forall|i: int| #[trigger] old(self).node_ids().contains(i) ==> final(self).region_of(i) == old(self).region_of(i),
            final(self).element_slots() == old(self).element_slots(),
            final(self).payload_slots() == old(self).payload_slots(),
            final(self).entry_slots() == old(self).entry_slots(),
            final(self).node_slots() == old(self).node_slots(),
            old(self).within_capacity() ==> final(self).within_capacity(),
    {
        proof {
            self.lemma_wf_parts(element_id as int);
        }
        self.detach(element_id);
    }

    /// What `wf` gives of one element: every other element is placed, and
    /// this one is in no leaf that it does not overlap.
    proof fn lemma_wf_parts(&self, e: int)
        requires
            self.wf(),
        ensures
            self.wf_structure(),
            self.placed_except(e),
            self.half_placed(e),
    {
        reveal(QuadTree::all_placed);
        reveal(QuadTree::placed_except);
        if self.elm_rects@.contains_key(e) {
            assert(self.placed(e));
        } else {
            assert forall|l: int| #[trigger] self.is_leaf(l) && self.leaf_has(l, e) implies overlaps(self.region@[l], self.erect(e)) by {
                self.lemma_node(l);
                reveal(QuadTree::wf_leaf);
                let k = choose|k: int| 0 <= k < self.chain@[l].len() && #[trigger] self.element_nodes@[self.chain@[l][k]].elm_id == e;
                assert(self.chain_link(l, k));
            }
        }
    }

    /// Takes element `element_id` out of every leaf and frees it and its
    /// payload.
    fn detach(&mut self, element_id: i32)
        requires
            old(self).wf_structure(),
            old(self).placed_except(element_id as int),
            old(self).half_placed(element_id as int),
            old(self).elm_rects@.contains_key(element_id as int),
        ensures
            final(self).wf(),
            final(self).elements() == old(self).elements().remove(element_id as int),
            final(self).root() == old(self).root(),
            final(self).capacity() == old(self).capacity(),
            final(self).node_ids() == old(self).node_ids(),
            forall|i: int| #[trigger] final(self).is_leaf(i) == old(self).is_leaf(i),
            forall|i: int| #[trigger] old(self).node_ids().contains(i) ==> final(self).region_of(i) == old(self).region_of(i),
            final(self).element_nodes.slots() == old(self).element_nodes.slots(),
            final(self).elm_rects.slots() == old(self).elm_rects.slots(),
            final(self).data.slots() == old(self).data.slots(),
            final(self).nodes.slots() == old(self).nodes.slots(),
            old(self).within_capacity() ==> final(self).within_capacity(),
    {
        let ghost e = element_id as int;
        proof {
            self.lemma_node(0);
        }
        let elm = *self.elm_rects.get(element_id);
        let leaves = self.find_leaves(0, self.root_rect, elm.rect, 0);
        let mut i: usize = 0;
        while i < leaves.len()
            invariant
                e == element_id as int,
                self.element_nodes.slots() == old(self).element_nodes.slots(),
                forall|i: int| #[trigger] self.nodes@[i].count <= old(self).nodes@[i].count,
                self.nodes.slots() == old(self).nodes.slots(),
                self.wf_structure(),
                self.elm_rects == old(self).elm_rects,
                self.data == old(self).data,
                self.root_rect == old(self).root_rect,
                self.elements_per_node == old(self).elements_per_node,
                self.region == old(self).region,
                self.depth == old(self).depth,
                self.nodes@.dom() == old(self).nodes@.dom(),
                forall|l: int| #[trigger] self.is_leaf(l) == old(self).is_leaf(l),
                forall|j: int| 0 <= j < leaves@.len() ==> old(self).is_leaf((#[trigger] leaves@[j]).node_index as int),
                forall|j: int| 0 <= j < i ==> !self.leaf_has((#[trigger] leaves@[j]).node_index as int, e),
                forall|l: int, e2: int| old(self).is_leaf(l) && e2 != e ==> #[trigger] self.leaf_has(l, e2) == old(self).leaf_has(l, e2),
                forall|l: int| old(self).is_leaf(l) && #[trigger] self.leaf_has(l, e) ==> old(self).leaf_has(l, e),
            decreases leaves@.len() - i,
        {
            let ghost mid = *self;
            let leaf = leaves[i];
            self.unlink(leaf.node_index, element_id);
            proof {
                assert(mid.is_leaf(leaf.node_index as int));
                assert(!self.leaf_has(leaf.node_index as int, e));
                assert forall|j: int| 0 <= j < i + 1 implies !self.leaf_has((#[trigger] leaves@[j]).node_index as int, e) by {
                    if leaves@[j].node_index != leaf.node_index {
                        assert(mid.is_leaf(leaves@[j].node_index as int));
                        assert(self.leaf_has(leaves@[j].node_index as int, e) == mid.leaf_has(leaves@[j].node_index as int, e));
                    }
                }
                assert forall|l: int, e2: int| old(self).is_leaf(l) && e2 != e implies #[trigger] self.leaf_has(l, e2) == old(self).leaf_has(l, e2) by {
                    assert(mid.is_leaf(l));
                    assert(self.leaf_has(l, e2) == mid.leaf_has(l, e2));
                }
                assert forall|l: int| old(self).is_leaf(l) && #[trigger] self.leaf_has(l, e) implies old(self).leaf_has(l, e) by {
                    if l != leaf.node_index {
                        assert(mid.is_leaf(l));
                        assert(self.leaf_has(l, e) == mid.leaf_has(l, e));
                    }
                }
            }
            i = i + 1;
        }
        proof {
            assert forall|l: int| #[trigger] self.is_leaf(l) implies !self.leaf_has(l, e) by {
                if self.leaf_has(l, e) {
                    assert(old(self).is_leaf(l));
                    assert(old(self).leaf_has(l, e));
                    old(self).lemma_under_root(l);
                    let j = choose|j: int| 0 <= j < leaves@.len() && (#[trigger] leaves@[j]).node_index == l;
                }
            }
        }
        let ghost before = *self;
        proof {
            reveal(QuadTree::elems_ok);
        }
        self.data.erase(elm.data_id);
        self.elm_rects.erase(element_id);
        proof {
            self.lemma_removed(before, *old(self), e);
        }
    }
}

impl<T> QuadTree<T> {
    // ----- queries -----

    /// Element `e` is reported by a query over `q` that omits `omit`: it is
    /// live, not omitted, overlaps `q`, and sits in a leaf that the query
    /// visits (the root when it is a leaf, else a leaf whose region overlaps
    /// `q`).
    pub open spec fn reported(&self, e: int, q: Rect, omit: int) -> bool {
        &&& self.elements().contains_key(e)
        &&& e != omit
        &&& overlaps(q, self.elements()[e].1)
        &&& exists|l: int| #[trigger] self.leaf_holds(l, e) && self.is_leaf(l) && (l == 0 || overlaps(self.region_of(l), q))
    }

    /// Collects into `ids` the element ids that a query over `query_r`
    /// reports, each once.
    fn query_node_box_rect(&mut self, query_r: Rect, omit_elm: i32, ids: &mut Vec<i32>)
        requires
            old(self).wf(),
            old(ids)@.len() == 0,
        ensures
            final(self).wf(),
            final(self).same_index(*old(self)),
            final(ids)@.no_duplicates(),
            forall|k: int| 0 <= k < final(ids)@.len() ==> old(self).reported(#[trigger] final(ids)@[k] as int, query_r, omit_elm as int),
            forall|e: int| old(self).reported(e, query_r, omit_elm as int) ==> exists|k: int| 0 <= k < final(ids)@.len() && #[trigger] final(ids)@[k] == e,
    {
        proof {
            self.lemma_wf_unfold();
            self.lemma_node(0);
            self.elm_rects.lemma_wf();
        }
        let ghost o = *self;
        let leaves = self.find_leaves(0, self.root_rect, query_r, 0);
        self.ensure_query_tmp_buffer_size();
        let mut j: usize = 0;
        while j < leaves.len()
            invariant
                o.wf(),
                o.wf_structure(),
                self.same_index(o),
                self.query_tmp_buffer@.len() >= o.elm_rects.slots(),
                forall|i: int| 0 <= i < self.query_tmp_buffer@.len() ==> (self.query_tmp_buffer@[i] <==> ids@.contains(i as i32)),
                ids@.no_duplicates(),
                forall|k: int| 0 <= k < ids@.len() ==> o.reported(#[trigger] ids@[k] as int, query_r, omit_elm as int),
                forall|jj: int| 0 <= jj < leaves@.len() ==> o.leaf_found(#[trigger] leaves@[jj], 0, query_r),
                o.leaves_complete(leaves@, 0, query_r),
                o.is_leaf(0) ==> leaves@.len() > 0 && leaves@[0].node_index == 0,
                self.query_tmp_buffer@.len() <= i32::MAX,
                forall|jj: int, e: int|
                    0 <= jj < j && o.reported(e, query_r, omit_elm as int) && #[trigger] o.leaf_has(leaves@[jj].node_index as int, e) ==> ids@.contains(e as i32),
            decreases leaves@.len() - j,
        {
            let leaf = leaves[j];
            self.find_element(Ghost(o), leaf.node_index, query_r, omit_elm, ids);
            j = j + 1;
        }
        proof {
            assert forall|e: int| o.reported(e, query_r, omit_elm as int) implies exists|k: int| 0 <= k < ids@.len() && #[trigger] ids@[k] == e by {
                let l = choose|l: int| #[trigger] o.leaf_holds(l, e) && o.is_leaf(l) && (l == 0 || overlaps(o.region_of(l), query_r));
                o.lemma_under_root(l);
                let jj = if l == 0 && o.is_leaf(0) {
                    0
                } else {
                    choose|jj: int| 0 <= jj < leaves@.len() && (#[trigger] leaves@[jj]).node_index == l
                };
                assert(leaves@[jj].node_index == l);
                assert(o.leaf_has(leaves@[jj].node_index as int, e));
                assert(ids@.contains(e as i32));
            }
        }
        self.clear_tmp_buffer(Ghost(o), ids);
    }

    /// Grows the scratch buffer to one flag per element slot.
    fn ensure_query_tmp_buffer_size(&mut self)
        requires
            old(self).wf(),
        ensures
            final(self).same_index(*old(self)),
            final(self).query_tmp_buffer@.len() >= old(self).elm_rects.slots(),
            final(self).query_tmp_buffer@.len() <= i32::MAX,
            forall|i: int| 0 <= i < final(self).query_tmp_buffer@.len() ==> !final(self).query_tmp_buffer@[i],
    {
        proof {
            self.lemma_wf_unfold();
            self.elm_rects.lemma_wf();
        }
        let n = self.elm_rects.data_len() as usize;
        while self.query_tmp_buffer.len() < n
            invariant
                self.same_index(*old(self)),
                n == old(self).elm_rects.slots(),
                n <= i32::MAX,
                self.query_tmp_buffer@.len() <= i32::MAX,
                forall|i: int| 0 <= i < self.query_tmp_buffer@.len() ==> !self.query_tmp_buffer@[i],
            decreases n - self.query_tmp_buffer@.len(),
        {
            self.query_tmp_buffer.push(false);
        }
    }

    /// Walks the chain of leaf `node_index` and adds each element that the
    /// query reports and `ids` does not hold yet.
    fn find_element(&mut self, o: Ghost<Self>, node_index: i32, query_r: Rect, omit_elm: i32, ids: &mut Vec<i32>)
        requires
            o@.wf(),
            o@.wf_structure(),
            old(self).same_index(o@),
            o@.is_leaf(node_index as int),
            o@.is_leaf(node_index as int) && (node_index == 0 || overlaps(o@.region@[node_index as int], query_r)),
            old(self).query_tmp_buffer@.len() >= o@.elm_rects.slots(),
            old(self).query_tmp_buffer@.len() <= i32::MAX,
            forall|i: int| 0 <= i < old(self).query_tmp_buffer@.len() ==> (old(self).query_tmp_buffer@[i] <==> old(ids)@.contains(i as i32)),
            old(ids)@.no_duplicates(),
            forall|k: int| 0 <= k < old(ids)@.len() ==> o@.reported(#[trigger] old(ids)@[k] as int, query_r, omit_elm as int),
        ensures
            final(self).same_index(o@),
            final(self).query_tmp_buffer@.len() == old(self).query_tmp_buffer@.len(),
            forall|i: int| 0 <= i < final(self).query_tmp_buffer@.len() ==> (final(self).query_tmp_buffer@[i] <==> final(ids)@.contains(i as i32)),
            final(ids)@.no_duplicates(),
            forall|k: int| 0 <= k < final(ids)@.len() ==> o@.reported(#[trigger] final(ids)@[k] as int, query_r, omit_elm as int),
            forall|e: int| #[trigger] old(ids)@.contains(e as i32) ==> final(ids)@.contains(e as i32),
            forall|e: int| o@.reported(e, query_r, omit_elm as int) && o@.leaf_has(node_index as int, e) ==> final(ids)@.contains(e as i32),
            final(ids)@.len() >= old(ids)@.len(),
            final(ids)@.subrange(0, old(ids)@.len() as int) == old(ids)@,
            forall|k: int| old(ids)@.len() <= k < final(ids)@.len() ==> o@.leaf_has(node_index as int, #[trigger] final(ids)@[k] as int),
    {
        let ghost l = node_index as int;
        let ghost c = o@.chain@[l];
        let ghost ids0 = ids@;
        proof {
            o@.lemma_node(l);
            reveal(QuadTree::wf_leaf);
            o@.elm_rects.lemma_wf();
            o@.element_nodes.lemma_wf();
            assert forall|i: int| 0 <= i < c.len() implies o@.chain_link(l, i) by {}
        }
        let node = *self.nodes.get(node_index);
        let mut cur = node.first_child;
        let ghost mut p: int = 0;
        while cur != -1
            invariant
                o@.wf(),
                o@.wf_structure(),
                o@.is_leaf(l),
                l == node_index as int,
                l == 0 || overlaps(o@.region@[l], query_r),
                c == o@.chain@[l],
                forall|i: int| 0 <= i < c.len() ==> o@.chain_link(l, i),
                forall|e: int| #[trigger] o@.elm_rects@.contains_key(e) ==> 0 <= e < o@.elm_rects.slots(),
                forall|x: int| #[trigger] o@.element_nodes@.contains_key(x) ==> 0 <= x,
                self.same_index(o@),
                self.query_tmp_buffer@.len() == old(self).query_tmp_buffer@.len(),
                self.query_tmp_buffer@.len() >= o@.elm_rects.slots(),
                self.query_tmp_buffer@.len() <= i32::MAX,
                forall|i: int| 0 <= i < self.query_tmp_buffer@.len() ==> (self.query_tmp_buffer@[i] <==> ids@.contains(i as i32)),
                ids@.no_duplicates(),
                forall|k: int| 0 <= k < ids@.len() ==> o@.reported(#[trigger] ids@[k] as int, query_r, omit_elm as int),
                forall|e: int| #[trigger] ids0.contains(e as i32) ==> ids@.contains(e as i32),
                ids0 == old(ids)@,
                ids@.len() >= ids0.len(),
                ids@.subrange(0, ids0.len() as int) == ids0,
                forall|k: int| ids0.len() <= k < ids@.len() ==> o@.leaf_has(l, #[trigger] ids@[k] as int),
                0 <= p <= c.len(),
                cur == (if p < c.len() { c[p] } else { -1 }),
                forall|i: int|
                    0 <= i < p && o@.reported(o@.entry(#[trigger] c[i]).elm_id as int, query_r, omit_elm as int) ==> ids@.contains(
                        o@.entry(c[i]).elm_id,
                    ),
            decreases c.len() - p,
        {
            proof {
                if p >= c.len() {
                    assert(false);
                }
                assert(o@.chain_link(l, p));
            }
            let en = *self.element_nodes.get(cur);
            let eid = en.elm_id;
            let er = self.elm_rects.get(eid).rect;
            let ghost ids_before = ids@;
            if eid != omit_elm && !self.query_tmp_buffer[eid as usize] && query_r.intersect(er) {
                self.query_tmp_buffer.set(eid as usize, true);
                ids.push(eid);
                proof {
                    assert(o@.leaf_has(l, eid as int));
                    assert(o@.leaf_holds(l, eid as int));
                    assert(o@.reported(eid as int, query_r, omit_elm as int));
                    assert(!ids_before.contains(eid));
                    assert forall|a: int, b: int| 0 <= a < b < ids@.len() implies ids@[a] != ids@[b] by {
                        if b == ids@.len() - 1 {
                            assert(ids_before.contains(ids@[a]));
                        }
                    }
                    assert forall|i: int| 0 <= i < self.query_tmp_buffer@.len() implies (self.query_tmp_buffer@[i] <==> ids@.contains(i as i32)) by {
                        if ids@.contains(i as i32) && i != eid {
                            let k = choose|k: int| 0 <= k < ids@.len() && ids@[k] == i as i32;
                            assert(ids_before[k] == i as i32);
                        }
                        if ids_before.contains(i as i32) {
                            let k = choose|k: int| 0 <= k < ids_before.len() && ids_before[k] == i as i32;
                            assert(ids@[k] == i as i32);
                        }
                        if i == eid {
                            assert(ids@[ids@.len() - 1] == eid);
                        }
                    }
                    assert(ids@.subrange(0, ids0.len() as int) =~= ids0) by {
                        assert(ids_before.subrange(0, ids0.len() as int) == ids0);
                        assert forall|q: int| 0 <= q < ids0.len() implies ids@[q] == ids0[q] by {
                            assert(ids_before.subrange(0, ids0.len() as int)[q] == ids_before[q]);
                        }
                    }
                    assert forall|q: int| ids0.len() <= q < ids@.len() implies o@.leaf_has(l, #[trigger] ids@[q] as int) by {
                        if q < ids@.len() - 1 {
                            assert(ids@[q] == ids_before[q]);
                        }
                    }
                    assert forall|e: int| #[trigger] ids0.contains(e as i32) implies ids@.contains(e as i32) by {
                        let k = choose|k: int| 0 <= k < ids_before.len() && ids_before[k] == e as i32;
                        assert(ids@[k] == e as i32);
                    }
                    assert forall|i: int|
                        0 <= i < p + 1 && o@.reported(o@.entry(#[trigger] c[i]).elm_id as int, query_r, omit_elm as int) implies ids@.contains(
                            o@.entry(c[i]).elm_id,
                        ) by {
                        if i < p {
                            let k = choose|k: int| 0 <= k < ids_before.len() && ids_before[k] == o@.entry(c[i]).elm_id;
                            assert(ids@[k] == o@.entry(c[i]).elm_id);
                        } else {
                            assert(ids@[ids@.len() - 1] == eid);
                        }
                    }
                }
            } else {
                proof {
                    assert forall|i: int|
                        0 <= i < p + 1 && o@.reported(o@.entry(#[trigger] c[i]).elm_id as int, query_r, omit_elm as int) implies ids@.contains(
                            o@.entry(c[i]).elm_id,
                        ) by {
                        if i == p {
                            assert(self.query_tmp_buffer@[eid as int]);
                        }
                    }
                }
            }
            cur = en.next;
            proof {
                p = p + 1;
            }
        }
        proof {
            if p < c.len() {
                assert(o@.chain_link(l, p));
            }
            assert forall|e: int| o@.reported(e, query_r, omit_elm as int) && o@.leaf_has(node_index as int, e) implies ids@.contains(e as i32) by {
                let i = choose|i: int| 0 <= i < c.len() && #[trigger] o@.element_nodes@[c[i]].elm_id == e;
                assert(o@.entry(c[i]).elm_id == e);
            }
        }
    }

    /// Resets the scratch flags of the ids in `ids`, which are exactly the
    /// set ones.
    fn clear_tmp_buffer(&mut self, o: Ghost<Self>, ids: &Vec<i32>)
        requires
            o@.wf(),
            old(self).same_index(o@),
            forall|i: int| 0 <= i < old(self).query_tmp_buffer@.len() ==> (old(self).query_tmp_buffer@[i] <==> ids@.contains(i as i32)),
            ids@.no_duplicates(),
            forall|k: int| 0 <= k < ids@.len() ==> 0 <= #[trigger] ids@[k] < old(self).query_tmp_buffer@.len(),
            old(self).query_tmp_buffer@.len() <= i32::MAX,
        ensures
            final(self).wf(),
            final(self).same_index(o@),
    {
        let mut k: usize = 0;
        proof {
            assert(ids@.subrange(0, ids@.len() as int) =~= ids@);
        }
        while k < ids.len()
            invariant
                o@.wf(),
                self.same_index(o@),
                self.query_tmp_buffer@.len() == old(self).query_tmp_buffer@.len(),
                self.query_tmp_buffer@.len() <= i32::MAX,
                ids@.no_duplicates(),
                forall|j: int| 0 <= j < ids@.len() ==> 0 <= #[trigger] ids@[j] < self.query_tmp_buffer@.len(),
                0 <= k <= ids@.len(),
                forall|i: int| 0 <= i < self.query_tmp_buffer@.len() ==> (self.query_tmp_buffer@[i] <==> ids@.subrange(k as int, ids@.len() as int).contains(i as i32)),
            decreases ids@.len() - k,
        {
            let id = ids[k];
            let ghost buf = self.query_tmp_buffer@;
            self.query_tmp_buffer.set(id as usize, false);
            proof {
                let s0 = ids@.subrange(k as int, ids@.len() as int);
                let s1 = ids@.subrange(k + 1, ids@.len() as int);
                assert forall|i: int| 0 <= i < self.query_tmp_buffer@.len() implies (self.query_tmp_buffer@[i] <==> s1.contains(i as i32)) by {
                    if s1.contains(i as i32) {
                        let j = choose|j: int| 0 <= j < s1.len() && s1[j] == i as i32;
                        assert(s0[j + 1] == i as i32);
                        assert(ids@[k + 1 + j] != ids@[k as int]);
                    }
                    if s0.contains(i as i32) && i != id {
                        let j = choose|j: int| 0 <= j < s0.len() && s0[j] == i as i32;
                        assert(j != 0);
                        assert(s1[j - 1] == i as i32);
                    }
                    if i == id {
                        assert(s0[0] == id);
                    }
                }
            }
            k = k + 1;
        }
        proof {
            assert forall|i: int| 0 <= i < self.query_tmp_buffer@.len() implies !self.query_tmp_buffer@[i] by {
                assert(ids@.subrange(k as int, ids@.len() as int).len() == 0);
            }
            self.lemma_buffer_only(o@);
        }
    }
}

impl<T: Copy> QuadTree<T> {
    /// Appends to `output` the payload of every element that overlaps
    /// `query_r` and lies in a leaf the query visits, each element once,
    /// skipping element `omit_elm` (`-1` skips none).
    pub fn query(&mut self, query_r: Rect, omit_elm: i32, output: &mut Vec<T>)
        requires
            old(self).wf(),
        ensures
            final(self).wf(),
            final(self).same_index(*old(self)),
            final(self).elements() == old(self).elements(),
            final(self).element_slots() == old(self).element_slots(),
            final(self).payload_slots() == old(self).payload_slots(),
            final(self).entry_slots() == old(self).entry_slots(),
            final(self).node_slots() == old(self).node_slots(),
            final(self).fresh_ids() == old(self).fresh_ids(),
            final(self).capacity() == old(self).capacity(),
            final(self).root() == old(self).root(),
            final(self).node_ids() == old(self).node_ids(),
            forall|i: int| #[trigger] final(self).is_leaf(i) == old(self).is_leaf(i),
            forall|i: int| #[trigger] final(self).is_branch(i) == old(self).is_branch(i),
            forall|i: int| #[trigger] final(self).region_of(i) == old(self).region_of(i),
            forall|i: int| #[trigger] final(self).first_child(i) == old(self).first_child(i),
            forall|i: int| #[trigger] final(self).stored_count(i) == old(self).stored_count(i),
            forall|i: int| #[trigger] final(self).leaf_elements(i) == old(self).leaf_elements(i),
            forall|i: int, e: int| #[trigger] final(self).leaf_holds(i, e) == old(self).leaf_holds(i, e),
            final(self).node_free_chain() == old(self).node_free_chain(),
            exists|ids: Seq<int>|
                {
                    &&& ids.no_duplicates()
                    &&& final(output)@ == old(output)@ + ids.map_values(|e: int| old(self).elements()[e].0)
                    &&& forall|e: int| #[trigger] ids.contains(e) <==> old(self).reported(e, query_r, omit_elm as int)
                },
    {
        let mut ids: Vec<i32> = Vec::new();
        self.query_node_box_rect(query_r, omit_elm, &mut ids);
        let ghost gids = ids@.map_values(|x: i32| x as int);
        let ghost out0 = output@;
        let ghost o = *old(self);
        proof {
            assert(self.elements() == o.elements());
        }
        let mut k: usize = 0;
        while k < ids.len()
            invariant
                self.wf(),
                self.elements() == o.elements(),
                gids == ids@.map_values(|x: i32| x as int),
                forall|j: int| 0 <= j < ids@.len() ==> o.reported(#[trigger] ids@[j] as int, query_r, omit_elm as int),
                0 <= k <= ids@.len(),
                output@ == out0 + gids.subrange(0, k as int).map_values(|e: int| o.elements()[e].0),
            decreases ids@.len() - k,
        {
            let v = *self.get(ids[k]);
            output.push(v);
            proof {
                assert(gids.subrange(0, k + 1).map_values(|e: int| o.elements()[e].0) =~= gids.subrange(0, k as int).map_values(
                    |e: int| o.elements()[e].0,
                ).push(o.elements()[gids[k as int]].0));
            }
            k = k + 1;
        }
        proof {
            assert(gids.subrange(0, ids@.len() as int) =~= gids);
            assert(gids.no_duplicates()) by {
                assert forall|a: int, b: int| 0 <= a < b < gids.len() implies gids[a] != gids[b] by {
                    assert(ids@[a] != ids@[b]);
                }
            }
            assert forall|e: int| #[trigger] gids.contains(e) <==> o.reported(e, query_r, omit_elm as int) by {
                if gids.contains(e) {
                    let j = choose|j: int| 0 <= j < gids.len() && gids[j] == e;
                    assert(o.reported(ids@[j] as int, query_r, omit_elm as int));
                }
                if o.reported(e, query_r, omit_elm as int) {
                    let j = choose|j: int| 0 <= j < ids@.len() && #[trigger] ids@[j] == e;
                    assert(gids[j] == e);
                }
            }
        }
    }

    /// `query` over the single point `query_p`.
    pub fn query_p(&mut self, query_p: Point, omit_elm: i32, output: &mut Vec<T>)
        requires
            old(self).wf(),
        ensures
            final(self).wf(),
            final(self).same_index(*old(self)),
            final(self).elements() == old(self).elements(),
            final(self).element_slots() == old(self).element_slots(),
            final(self).payload_slots() == old(self).payload_slots(),
            final(self).entry_slots() == old(self).entry_slots(),
            final(self).node_slots() == old(self).node_slots(),
            final(self).fresh_ids() == old(self).fresh_ids(),
            final(self).capacity() == old(self).capacity(),
            final(self).root() == old(self).root(),
            final(self).node_ids() == old(self).node_ids(),
            forall|i: int| #[trigger] final(self).is_leaf(i) == old(self).is_leaf(i),
            forall|i: int| #[trigger] final(self).is_branch(i) == old(self).is_branch(i),
            forall|i: int| #[trigger] final(self).region_of(i) == old(self).region_of(i),
            forall|i: int| #[trigger] final(self).first_child(i) == old(self).first_child(i),
            forall|i: int| #[trigger] final(self).stored_count(i) == old(self).stored_count(i),
            forall|i: int| #[trigger] final(self).leaf_elements(i) == old(self).leaf_elements(i),
            forall|i: int, e: int| #[trigger] final(self).leaf_holds(i, e) == old(self).leaf_holds(i, e),
            final(self).node_free_chain() == old(self).node_free_chain(),
            exists|ids: Seq<int>|
                {
                    &&& ids.no_duplicates()
                    &&& final(output)@ == old(output)@ + ids.map_values(|e: int| old(self).elements()[e].0)
                    &&& forall|e: int| #[trigger] ids.contains(e) <==> old(self).reported(e, point_rect(query_p), omit_elm as int)
                },
    {
        self.query(Point::to_rect(query_p), omit_elm, output);
    }
}

} // verus!
