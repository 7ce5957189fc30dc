//! A skip list kept in an arena: nodes are addressed by their index in a vector,
//! node 0 is the sentinel head, and each node's `forward` vector holds, for every
//! level, the index of the next node on that level.
use crate::ordered::{
    keys_sorted, lemma_insert_sorted, lemma_lookup_absent, lemma_lookup_at, lemma_update_value_sorted,
    lemma_upsert_at, lookup, upsert,
};
use crate::drawing::{
    cell, cell_open_bytes, drawing_row, header_close_bytes, header_open_bytes, head_word_bytes,
    level_line, level_word_bytes, levels_text, nil_end_bytes, push_dashes, push_decimal, push_pad2,
    push_piece, skiplist_drawing, texts_of,
};
use crate::traits::{
    dictionary_before, lemma_i32_key_order, lemma_lex_lt_is_dictionary, KeyOrder, TypeSkipListKey,
    TypeSkipListValue,
};
use vstd::prelude::*;

verus! {

/// A key/value pair.
pub struct SkipListKV<K, V> {
    pub key: K,
    pub value: V,
}

impl<K, V> SkipListKV<K, V> {
    pub fn new(key: K, value: V) -> (r: Self)
        ensures
            r.key == key,
            r.value == value,
    {
        Self { key, value }
    }
}

/// `n` empty links.
pub open spec fn no_links(n: nat) -> Seq<Option<usize>> {
    Seq::new(n, |i: int| None::<usize>)
}

/// A node: its level, its pair, and one forward link per level `0..=level`.
pub struct SkipListNode<K, V> {
    pub level: usize,
    pub data: SkipListKV<K, V>,
    pub forward: Vec<Option<usize>>,
}

impl<K, V> SkipListNode<K, V> {
    /// A node of the given level with no links yet.
    pub fn new(level: usize, key: K, value: V) -> (r: Self)
        requires
            level < usize::MAX,
        ensures
            r.level == level,
            r.data.key == key,
            r.data.value == value,
            r.forward@ == no_links((level + 1) as nat),
    {
        let mut forward: Vec<Option<usize>> = Vec::new();
        let mut i: usize = 0;
        while i <= level
            invariant
                level < usize::MAX,
                i <= level + 1,
                forward@ == no_links(i as nat),
            decreases level + 1 - i,
        {
            forward.push(None);
            i = i + 1;
            assert(forward@ =~= no_links(i as nat));
        }
        Self { level, data: SkipListKV::new(key, value), forward }
    }

    pub fn get_key(node: &Self) -> (r: &K)
        ensures
            *r == node.data.key,
    {
        &node.data.key
    }

    pub fn get_value(node: &Self) -> (r: &V)
        ensures
            *r == node.data.value,
    {
        &node.data.value
    }

    pub fn get_forward(node: &Self) -> (r: &Vec<Option<usize>>)
        ensures
            *r == node.forward,
    {
        &node.forward
    }

    pub fn get_forward_mut(node: &mut Self) -> (r: &mut Vec<Option<usize>>)
        ensures
            *r == old(node).forward,
            final(node).level == old(node).level,
            final(node).data == old(node).data,
            final(node).forward == *final(r),
    {
        &mut node.forward
    }
}

/// The forward links of every node, by view.
pub open spec fn link_view<K, V>(nodes: Seq<SkipListNode<K, V>>) -> Seq<Seq<Option<usize>>> {
    Seq::new(nodes.len(), |x: int| nodes[x].forward@)
}

/// `order` lists every non-head node once, and `pos` is its inverse (`-1` for the head).
pub open spec fn order_ok(n: int, order: Seq<usize>, pos: Seq<int>) -> bool {
    &&& order.len() + 1 == n
    &&& pos.len() == n
    &&& pos[0] == -1
    &&& forall|i: int| 0 <= i < order.len() ==> 1 <= #[trigger] order[i] < n && pos[order[i] as int] == i
    &&& forall|x: int| 1 <= x < n ==> 0 <= #[trigger] pos[x] < n - 1 && order[pos[x]] == x
}

/// Every link points to a later node that is tall enough for its level, and level 0
/// links each node to the next one in `order`.
pub open spec fn links_ok(lk: Seq<Seq<Option<usize>>>, order: Seq<usize>, pos: Seq<int>) -> bool {
    let n = lk.len();
    &&& forall|x: int, l: int|
        0 <= x < n && 0 <= l < lk[x].len() && (#[trigger] lk[x][l]) is Some ==> {
            let t = lk[x][l].unwrap() as int;
            &&& 1 <= t < n
            &&& pos[t] > pos[x]
            &&& l < lk[t].len()
        }
    &&& forall|x: int|
        0 <= x < n ==> 0 < (#[trigger] lk[x]).len() && lk[x][0] == if pos[x] + 1 < order.len() {
            Some(order[pos[x] + 1])
        } else {
            None
        }
}

/// The head is `max_level + 1` links tall; every other node has a level in
/// `1..=max_level` and `level + 1` links.
pub open spec fn shape_ok<K, V>(max_level: usize, nodes: Seq<SkipListNode<K, V>>) -> bool {
    &&& nodes.len() >= 1
    &&& max_level < usize::MAX
    &&& nodes[0].forward@.len() == max_level + 1
    &&& forall|x: int|
        1 <= x < nodes.len() ==> 1 <= (#[trigger] nodes[x]).level <= max_level
            && nodes[x].forward@.len() == nodes[x].level + 1
}

/// The pairs of the nodes listed in `order`, by view.
pub open spec fn entries_of<K: View, V: View>(nodes: Seq<SkipListNode<K, V>>, order: Seq<usize>) -> Seq<(K::V, V::V)> {
    Seq::new(order.len(), |i: int| (nodes[order[i] as int].data.key@, nodes[order[i] as int].data.value@))
}

/// Node `x` is linked on level `l`: it has a link slot above `l` (its top slot,
/// one above its levels, stays empty).
pub open spec fn tall(lk: Seq<Seq<Option<usize>>>, x: int, l: int) -> bool {
    l + 1 < lk[x].len()
}

/// The first place from `j` on in `order` whose node is linked on level `l`, or
/// the length of `order` when there is none.
pub open spec fn first_tall(lk: Seq<Seq<Option<usize>>>, order: Seq<usize>, l: int, j: int) -> int
    decreases order.len() - j,
{
    if j >= order.len() {
        order.len() as int
    } else if j >= 0 && tall(lk, order[j] as int, l) {
        j
    } else {
        first_tall(lk, order, l, j + 1)
    }
}

/// The first node from place `j` on in `order` that is linked on level `l`.
pub open spec fn next_tall(lk: Seq<Seq<Option<usize>>>, order: Seq<usize>, l: int, j: int) -> Option<usize> {
    let q = first_tall(lk, order, l, j);
    if 0 <= q < order.len() {
        Some(order[q])
    } else {
        None
    }
}

/// The towers: each node is linked on exactly the levels below its height, and on
/// each of them its link leads to the next node in key order that is linked there.
#[verifier::opaque]
pub open spec fn tower_ok(lk: Seq<Seq<Option<usize>>>, order: Seq<usize>, pos: Seq<int>) -> bool {
    forall|x: int, l: int|
        0 <= x < lk.len() && 0 <= l < lk[x].len() ==> #[trigger] lk[x][l] == if tall(lk, x, l) {
            next_tall(lk, order, l, pos[x] + 1)
        } else {
            None::<usize>
        }
}

/// What [`first_tall`] finds: no node linked on `l` before it, and one at it.
pub proof fn lemma_first_tall_props(lk: Seq<Seq<Option<usize>>>, order: Seq<usize>, l: int, j: int)
    requires
        0 <= j <= order.len(),
    ensures
        j <= first_tall(lk, order, l, j) <= order.len(),
        forall|i: int| j <= i < first_tall(lk, order, l, j) ==> !tall(lk, #[trigger] order[i] as int, l),
        first_tall(lk, order, l, j) < order.len() ==> tall(lk, order[first_tall(lk, order, l, j)] as int, l),
    decreases order.len() - j,
{
    if j < order.len() && !tall(lk, order[j] as int, l) {
        lemma_first_tall_props(lk, order, l, j + 1);
    }
}

/// A place with no node linked on `l` from `j` up to it, and one at it, is what
/// [`first_tall`] finds.
pub proof fn lemma_first_tall_is(lk: Seq<Seq<Option<usize>>>, order: Seq<usize>, l: int, j: int, q: int)
    requires
        0 <= j <= q <= order.len(),
        forall|i: int| j <= i < q ==> !tall(lk, #[trigger] order[i] as int, l),
        q < order.len() ==> tall(lk, order[q] as int, l),
    ensures
        first_tall(lk, order, l, j) == q,
    decreases q - j,
{
    if j < q {
        lemma_first_tall_is(lk, order, l, j + 1, q);
    }
}

/// Scanning from a place up to the insertion point after a node joins `order` at
/// `p + 1`.
proof fn lemma_scan_inserted(
    lk: Seq<Seq<Option<usize>>>,
    lk2: Seq<Seq<Option<usize>>>,
    order: Seq<usize>,
    l: int,
    j: int,
    p: int,
    n: int,
)
    requires
        0 <= j <= p + 1 <= order.len(),
        0 <= n < usize::MAX,
        forall|i: int|
            0 <= i < order.len() ==> (#[trigger] order[i]) < n && lk2[order[i] as int].len()
                == lk[order[i] as int].len(),
    ensures
        ({
            let q = first_tall(lk, order, l, j);
            next_tall(lk2, order.insert(p + 1, n as usize), l, j) == if q <= p {
                Some(order[q])
            } else if tall(lk2, n, l) {
                Some(n as usize)
            } else {
                next_tall(lk, order, l, j)
            }
        }),
{
    let o2 = order.insert(p + 1, n as usize);
    lemma_first_tall_props(lk, order, l, j);
    let q = first_tall(lk, order, l, j);
    if q <= p {
        assert forall|i: int| j <= i < q implies !tall(lk2, #[trigger] o2[i] as int, l) by {
            assert(o2[i] == order[i]);
        }
        assert(o2[q] == order[q]);
        lemma_first_tall_is(lk2, o2, l, j, q);
    } else if tall(lk2, n, l) {
        assert forall|i: int| j <= i < p + 1 implies !tall(lk2, #[trigger] o2[i] as int, l) by {
            assert(o2[i] == order[i]);
        }
        assert(o2[p + 1] == n as usize);
        lemma_first_tall_is(lk2, o2, l, j, p + 1);
    } else {
        assert forall|i: int| j <= i < q + 1 implies !tall(lk2, #[trigger] o2[i] as int, l) by {
            if i <= p {
                assert(o2[i] == order[i]);
            } else if i > p + 1 {
                assert(o2[i] == order[i - 1]);
            }
        }
        if q < order.len() {
            assert(o2[q + 1] == order[q]);
        }
        lemma_first_tall_is(lk2, o2, l, j, q + 1);
    }
}

/// Scanning from a place after the insertion point after a node joins `order` at
/// `p + 1`.
proof fn lemma_scan_after(
    lk: Seq<Seq<Option<usize>>>,
    lk2: Seq<Seq<Option<usize>>>,
    order: Seq<usize>,
    l: int,
    j: int,
    p: int,
    n: int,
)
    requires
        -1 <= p,
        p + 2 <= j <= order.len() + 1,
        0 <= n < usize::MAX,
        forall|i: int|
            0 <= i < order.len() ==> (#[trigger] order[i]) < n && lk2[order[i] as int].len()
                == lk[order[i] as int].len(),
    ensures
        next_tall(lk2, order.insert(p + 1, n as usize), l, j) == next_tall(lk, order, l, j - 1),
{
    let o2 = order.insert(p + 1, n as usize);
    lemma_first_tall_props(lk, order, l, j - 1);
    let q = first_tall(lk, order, l, j - 1);
    assert forall|i: int| j <= i < q + 1 implies !tall(lk2, #[trigger] o2[i] as int, l) by {
        assert(o2[i] == order[i - 1]);
    }
    if q < order.len() {
        assert(o2[q + 1] == order[q]);
    }
    lemma_first_tall_is(lk2, o2, l, j, q + 1);
}

/// Splicing a node after the last node linked on each of its levels keeps the
/// towers.
proof fn lemma_splice_tower(
    lk: Seq<Seq<Option<usize>>>,
    order: Seq<usize>,
    pos: Seq<int>,
    update: Seq<usize>,
    new_level: int,
    cur: int,
)
    requires
        lk.len() + 1 < usize::MAX,
        order_ok(lk.len() as int, order, pos),
        tower_ok(lk, order, pos),
        0 <= cur < lk.len(),
        1 <= new_level <= update.len(),
        update[0] == cur,
        forall|l: int|
            0 <= l < new_level ==> {
                let u = #[trigger] update[l] as int;
                &&& 0 <= u < lk.len()
                &&& pos[u] <= pos[cur]
                &&& tall(lk, u, l)
                &&& (lk[u][l] matches Some(t) ==> pos[t as int] > pos[cur])
            },
    ensures
        tower_ok(
            spliced_links(lk, update, new_level),
            order.insert(pos[cur] + 1, lk.len() as usize),
            spliced_pos(pos, pos[cur], lk.len() as int),
        ),
{
    reveal(tower_ok);
    let n = lk.len() as int;
    let p = pos[cur];
    let lk2 = spliced_links(lk, update, new_level);
    let o2 = order.insert(p + 1, n as usize);
    let pos2 = spliced_pos(pos, p, n);
    assert(-1 <= p < order.len());
    assert forall|i: int| 0 <= i < order.len() implies (#[trigger] order[i]) < n && lk2[order[i] as int].len()
        == lk[order[i] as int].len() by {
    }
    assert forall|l: int| 0 <= l < new_level implies first_tall(lk, order, l, pos[update[l] as int] + 1) > p by {
        let u = update[l] as int;
        lemma_first_tall_props(lk, order, l, pos[u] + 1);
        let q = first_tall(lk, order, l, pos[u] + 1);
        assert(lk[u][l] == next_tall(lk, order, l, pos[u] + 1));
        if q <= p {
            assert(pos[order[q] as int] == q);
        }
    }
    assert forall|x: int, l: int| 0 <= x < lk2.len() && 0 <= l < lk2[x].len() implies #[trigger] lk2[x][l]
        == if tall(lk2, x, l) {
        next_tall(lk2, o2, l, pos2[x] + 1)
    } else {
        None::<usize>
    } by {
        if x == n {
            if l < new_level {
                let u = update[l] as int;
                assert(lk2[x][l] == lk[u][l]);
                assert(lk[u][l] == next_tall(lk, order, l, pos[u] + 1));
                lemma_first_tall_props(lk, order, l, pos[u] + 1);
                lemma_first_tall_props(lk, order, l, p + 1);
                lemma_first_tall_is(lk, order, l, pos[u] + 1, first_tall(lk, order, l, p + 1));
                lemma_scan_after(lk, lk2, order, l, p + 2, p, n);
            }
        } else {
            assert(lk2[x].len() == lk[x].len());
            assert(lk[x][l] == if tall(lk, x, l) {
                next_tall(lk, order, l, pos[x] + 1)
            } else {
                None::<usize>
            });
            if l < new_level && x == update[l] {
                lemma_scan_inserted(lk, lk2, order, l, pos[x] + 1, p, n);
            } else {
                assert(lk2[x][l] == lk[x][l]);
                if tall(lk, x, l) {
                    if pos[x] > p {
                        lemma_scan_after(lk, lk2, order, l, pos[x] + 2, p, n);
                    } else {
                        lemma_scan_inserted(lk, lk2, order, l, pos[x] + 1, p, n);
                        lemma_first_tall_props(lk, order, l, pos[x] + 1);
                        if l < new_level && first_tall(lk, order, l, pos[x] + 1) > p {
                            let u = update[l] as int;
                            if pos[u] > pos[x] {
                                assert(pos[u] >= 0);
                                assert(order[pos[u]] == u);
                                assert(!tall(lk, order[pos[u]] as int, l));
                            } else if pos[u] < pos[x] {
                                lemma_first_tall_props(lk, order, l, pos[u] + 1);
                                assert(pos[x] >= 0);
                                assert(order[pos[x]] == x);
                                assert(!tall(lk, order[pos[x]] as int, l));
                            } else {
                                if x >= 1 && u >= 1 {
                                    assert(order[pos[x]] == x);
                                }
                            }
                        }
                    }
                }
            }
        }
    }
}

/// The skip list's invariant, over its parts.
pub open spec fn wf_parts<K: TypeSkipListKey, V: TypeSkipListValue>(
    max_level: usize,
    nodes: Seq<SkipListNode<K, V>>,
    order: Seq<usize>,
    pos: Seq<int>,
) -> bool {
    &&& shape_ok(max_level, nodes)
    &&& order_ok(nodes.len() as int, order, pos)
    &&& links_ok(link_view(nodes), order, pos)
    &&& (max_level == 0 ==> order.len() == 0)
    &&& keys_sorted::<K, V::V>(entries_of(nodes, order))
    &&& tower_ok(link_view(nodes), order, pos)
}

/// An ordered map from keys to values, kept as a skip list.
pub struct SkipList<K, V> {
    max_level: usize,
    nodes: Vec<SkipListNode<K, V>>,
    order: Ghost<Seq<usize>>,
    pos: Ghost<Seq<int>>,
}

impl<K: TypeSkipListKey, V: TypeSkipListValue> View for SkipList<K, V> {
    type V = Seq<(K::V, V::V)>;

    /// The pairs in ascending key order.
    closed spec fn view(&self) -> Seq<(K::V, V::V)> {
        entries_of(self.nodes@, self.order@)
    }
}

impl<K: TypeSkipListKey, V: TypeSkipListValue> SkipList<K, V> {
    /// The number of levels a search walks down.
    pub closed spec fn level_cap(&self) -> usize {
        self.max_level
    }

    /// The sentinel head node.
    pub closed spec fn head_node(&self) -> SkipListNode<K, V> {
        self.nodes@[0]
    }

    pub closed spec fn wf(&self) -> bool {
        wf_parts::<K, V>(self.max_level, self.nodes@, self.order@, self.pos@)
    }

    /// An empty list whose sentinel head holds `dummy_k` and `dummy_v`.
    pub fn new(max_level: usize, dummy_k: K, dummy_v: V) -> (r: Self)
        requires
            max_level < usize::MAX,
        ensures
            r.wf(),
            r@ == Seq::<(K::V, V::V)>::empty(),
            r.level_cap() == max_level,
            r.head_node().data.key == dummy_k,
            r.head_node().data.value == dummy_v,
            r.head_node().level == max_level,
            r.head_node().forward@ == no_links((max_level + 1) as nat),
    {
        let head = SkipListNode::new(max_level, dummy_k, dummy_v);
        let mut nodes: Vec<SkipListNode<K, V>> = Vec::new();
        nodes.push(head);
        let ghost pos0: Seq<int> = seq![-1int];
        let r = Self { max_level, nodes, order: Ghost(Seq::empty()), pos: Ghost(pos0) };
        assert(r@ =~= Seq::<(K::V, V::V)>::empty());
        assert(link_view(r.nodes@)[0] == no_links((max_level + 1) as nat));
        assert(tower_ok(link_view(r.nodes@), r.order@, r.pos@)) by {
            reveal(tower_ok);
        }
        r
    }

    /// The pairs of a well-formed list are in ascending key order.
    pub proof fn lemma_view_sorted(&self)
        requires
            self.wf(),
        ensures
            keys_sorted::<K, V::V>(self@),
    {
    }

    /// The number of pairs.
    pub fn len(&self) -> (r: usize)
        requires
            self.wf(),
        ensures
            r == self@.len(),
    {
        self.nodes.len() - 1
    }

    /// The level of the node of each pair, in ascending key order: the node is
    /// linked on levels `0..level`.
    pub closed spec fn levels(&self) -> Seq<int> {
        Seq::new(self.order@.len(), |i: int| self.nodes@[self.order@[i] as int].level as int)
    }

    /// The node at index `i` of the list's arena; index 0 is the head.
    pub closed spec fn node_at(&self, i: int) -> SkipListNode<K, V> {
        self.nodes@[i]
    }

    /// The number of nodes, the head included.
    pub fn node_count(&self) -> (r: usize)
        requires
            self.wf(),
        ensures
            r == self@.len() + 1,
    {
        self.nodes.len()
    }

    /// The node at index `i`; the indexes are those that forward links hold.
    pub fn node(&self, i: usize) -> (r: &SkipListNode<K, V>)
        requires
            self.wf(),
            i <= self@.len(),
        ensures
            *r == self.node_at(i as int),
    {
        &self.nodes[i]
    }

    pub fn max_level(&self) -> (r: usize)
        ensures
            r == self.level_cap(),
    {
        self.max_level
    }

    pub fn head(&self) -> (r: &SkipListNode<K, V>)
        requires
            self.wf(),
        ensures
            *r == self.head_node(),
    {
        &self.nodes[0]
    }
}


/// `a` is at most `b` in the key order.
pub open spec fn key_le<K: TypeSkipListKey>(a: K::V, b: K::V) -> bool {
    K::key_lt(a, b) || a == b
}

impl<K: TypeSkipListKey, V: TypeSkipListValue> SkipList<K, V> {
    spec fn key_of(&self, x: int) -> K::V {
        self.nodes@[x].data.key@
    }

    spec fn link(&self, x: int, l: int) -> Option<usize> {
        self.nodes@[x].forward@[l]
    }

    proof fn lemma_view_at(&self, i: int)
        requires
            self.wf(),
            0 <= i < self.order@.len(),
        ensures
            self@[i] == (self.key_of(self.order@[i] as int), self.nodes@[self.order@[i] as int].data.value@),
            self@.len() == self.order@.len(),
    {
    }

    /// Keys in `order` are strictly increasing, seen through node indices.
    proof fn lemma_sorted_nodes(&self, x: int, y: int)
        requires
            self.wf(),
            1 <= x < self.nodes@.len(),
            1 <= y < self.nodes@.len(),
            self.pos@[x] < self.pos@[y],
        ensures
            K::key_lt(self.key_of(x), self.key_of(y)),
    {
        let i = self.pos@[x];
        let j = self.pos@[y];
        assert(self@[i].0 == self.key_of(x));
        assert(self@[j].0 == self.key_of(y));
    }

    /// Where a search ends: `cur` is at most `k`, and its level-0 successor is above
    /// `k`. Then `k` is found exactly when `cur` holds it.
    proof fn lemma_search_end(&self, cur: int, k: K::V)
        requires
            self.wf(),
            0 <= cur < self.nodes@.len(),
            cur == 0 || key_le::<K>(self.key_of(cur), k),
            self.link(cur, 0) matches Some(t) ==> K::key_lt(k, self.key_of(t as int)),
        ensures
            cur != 0 && self.key_of(cur) == k ==> lookup(self@, k) == Some(
                self.nodes@[cur].data.value@,
            ),
            cur == 0 || self.key_of(cur) != k ==> lookup(self@, k) is None,
    {
        let lk = link_view(self.nodes@);
        assert(lk[cur] == self.nodes@[cur].forward@);
        let p = self.pos@[cur];
        if cur != 0 && self.key_of(cur) == k {
            lemma_sorted_lookup_at::<K, V>(self, p);
        } else {
            assert forall|i: int| 0 <= i < self@.len() implies (#[trigger] self@[i]).0 != k by {
                let x = self.order@[i] as int;
                assert(self@[i].0 == self.key_of(x));
                K::lemma_key_order(k, k, k);
                if i <= p {
                    if i < p {
                        self.lemma_sorted_nodes(x, cur);
                        K::lemma_key_order(self.key_of(x), self.key_of(cur), k);
                    }
                } else {
                    let t = self.order@[p + 1] as int;
                    if i > p + 1 {
                        self.lemma_sorted_nodes(t, x);
                        K::lemma_key_order(k, self.key_of(t), self.key_of(x));
                    }
                }
            }
            lemma_lookup_absent(self@, k);
        }
    }

    /// The value bound to `key`, if any.
    pub fn search(&self, key: K) -> (r: Option<V>)
        requires
            self.wf(),
        ensures
            match r {
                Some(v) => lookup(self@, key@) == Some(v@),
                None => lookup(self@, key@) is None,
            },
    {
        let ghost n = self.nodes@.len() as int;
        let ghost lk = link_view(self.nodes@);
        let mut cur: usize = 0;
        let mut level: usize = self.max_level;
        while level > 0
            invariant
                self.wf(),
                n == self.nodes@.len(),
                lk == link_view(self.nodes@),
                level <= self.max_level,
                cur < n,
                level < self.nodes@[cur as int].forward@.len(),
                cur == 0 || key_le::<K>(self.key_of(cur as int), key@),
                level < self.max_level ==> (self.link(cur as int, level as int) matches Some(t)
                    ==> K::key_lt(key@, self.key_of(t as int))),
            decreases level,
        {
            level = level - 1;
            loop
                invariant
                    self.wf(),
                    n == self.nodes@.len(),
                    lk == link_view(self.nodes@),
                    level < self.max_level,
                    cur < n,
                    level < self.nodes@[cur as int].forward@.len(),
                    cur == 0 || key_le::<K>(self.key_of(cur as int), key@),
                ensures
                    cur < n,
                    level < self.nodes@[cur as int].forward@.len(),
                    cur == 0 || key_le::<K>(self.key_of(cur as int), key@),
                    self.link(cur as int, level as int) matches Some(t) ==> K::key_lt(
                        key@,
                        self.key_of(t as int),
                    ),
                decreases self.order@.len() - self.pos@[cur as int],
            {
                assert(lk[cur as int] == self.nodes@[cur as int].forward@);
                match self.nodes[cur].forward[level] {
                    Some(next) => {
                        assert(lk[next as int] == self.nodes@[next as int].forward@);
                        let c = self.nodes[next].data.key.compare_key(&key);
                        if c == KeyOrder::Greater {
                            break ;
                        }
                        cur = next;
                    },
                    None => {
                        break ;
                    },
                }
            }
        }
        proof {
            if self.max_level > 0 {
                assert(level == 0);
            } else {
                assert(self.order@.len() == 0);
                assert(link_view(self.nodes@)[0] == self.nodes@[0].forward@);
            }
            self.lemma_search_end(cur as int, key@);
        }
        if cur == 0 {
            return None;
        }
        let node = &self.nodes[cur];
        if node.data.key.compare_key(&key) == KeyOrder::Equal {
            Some(node.data.value.clone_value())
        } else {
            None
        }
    }
}

/// `lemma_lookup_at` for the pair that node `order[p]` holds.
proof fn lemma_sorted_lookup_at<K: TypeSkipListKey, V: TypeSkipListValue>(list: &SkipList<K, V>, p: int)
    requires
        list.wf(),
        0 <= p < list@.len(),
    ensures
        lookup(list@, list@[p].0) == Some(list@[p].1),
{
    lemma_lookup_at::<K, V::V>(list@, p);
}

/// The links after splicing a new node, whose index is `lk.len()`, into the levels
/// `0..new_level` right after the nodes `update[l]`.
pub open spec fn spliced_links(lk: Seq<Seq<Option<usize>>>, update: Seq<usize>, new_level: int) -> Seq<
    Seq<Option<usize>>,
> {
    let n = lk.len() as int;
    Seq::new(
        (n + 1) as nat,
        |x: int|
            if x == n {
                Seq::new(
                    (new_level + 1) as nat,
                    |l: int|
                        if l < new_level {
                            lk[update[l] as int][l]
                        } else {
                            None
                        },
                )
            } else {
                Seq::new(
                    lk[x].len(),
                    |l: int|
                        if l < new_level && x == update[l] {
                            Some(n as usize)
                        } else {
                            lk[x][l]
                        },
                )
            },
    )
}

/// Positions after a new node `n` takes position `p + 1`.
pub open spec fn spliced_pos(pos: Seq<int>, p: int, n: int) -> Seq<int> {
    Seq::new(
        (n + 1) as nat,
        |x: int|
            if x == n {
                p + 1
            } else if pos[x] > p {
                pos[x] + 1
            } else {
                pos[x]
            },
    )
}

proof fn lemma_splice_order(order: Seq<usize>, pos: Seq<int>, n: int, cur: int)
    requires
        order_ok(n, order, pos),
        0 <= cur < n < usize::MAX,
    ensures
        order_ok(n + 1, order.insert(pos[cur] + 1, n as usize), spliced_pos(pos, pos[cur], n)),
        forall|x: int| 0 <= x < n && x != cur ==> pos[x] != pos[cur],
{
    let p = pos[cur];
    let order2 = order.insert(p + 1, n as usize);
    let pos2 = spliced_pos(pos, p, n);
    assert(-1 <= p < order.len());
    assert forall|x: int| 0 <= x < n && x != cur implies pos[x] != p by {
        if x >= 1 && cur >= 1 && pos[x] == p {
            assert(order[pos[x]] == x);
        }
    }
    assert forall|i: int| 0 <= i < order2.len() implies 1 <= #[trigger] order2[i] < n + 1
        && pos2[order2[i] as int] == i by {
        if i < p + 1 {
            assert(order2[i] == order[i]);
        } else if i > p + 1 {
            assert(order2[i] == order[i - 1]);
        }
    }
    assert forall|x: int| 1 <= x < n + 1 implies 0 <= #[trigger] pos2[x] < n && order2[pos2[x]]
        == x by {
        if x < n {
            assert(order[pos[x]] == x);
        }
    }
}

/// Splicing a node keeps the links well formed.
proof fn lemma_splice_links(
    lk: Seq<Seq<Option<usize>>>,
    order: Seq<usize>,
    pos: Seq<int>,
    update: Seq<usize>,
    new_level: int,
    cur: int,
)
    requires
        lk.len() < usize::MAX,
        order_ok(lk.len() as int, order, pos),
        links_ok(lk, order, pos),
        0 <= cur < lk.len(),
        1 <= new_level <= update.len(),
        update[0] == cur,
        forall|l: int|
            0 <= l < new_level ==> {
                let u = #[trigger] update[l] as int;
                &&& 0 <= u < lk.len()
                &&& pos[u] <= pos[cur]
                &&& l < lk[u].len()
                &&& (lk[u][l] matches Some(t) ==> pos[t as int] > pos[cur])
            },
    ensures
        links_ok(
            spliced_links(lk, update, new_level),
            order.insert(pos[cur] + 1, lk.len() as usize),
            spliced_pos(pos, pos[cur], lk.len() as int),
        ),
{
    lemma_splice_order(order, pos, lk.len() as int, cur);
    lemma_splice_forward(lk, pos, update, new_level, cur);
    lemma_splice_level0(lk, order, pos, update, new_level, cur);
}

/// Splicing keeps every link pointing forward to a node tall enough for it.
proof fn lemma_splice_forward(
    lk: Seq<Seq<Option<usize>>>,
    pos: Seq<int>,
    update: Seq<usize>,
    new_level: int,
    cur: int,
)
    requires
        lk.len() < usize::MAX,
        pos.len() == lk.len(),
        forall|x: int, l: int|
            0 <= x < lk.len() && 0 <= l < lk[x].len() && (#[trigger] lk[x][l]) is Some ==> {
                let t = lk[x][l].unwrap() as int;
                &&& 1 <= t < lk.len()
                &&& pos[t] > pos[x]
                &&& l < lk[t].len()
            },
        0 <= cur < lk.len(),
        1 <= new_level <= update.len(),
        forall|l: int|
            0 <= l < new_level ==> {
                let u = #[trigger] update[l] as int;
                &&& 0 <= u < lk.len()
                &&& pos[u] <= pos[cur]
                &&& l < lk[u].len()
                &&& (lk[u][l] matches Some(t) ==> pos[t as int] > pos[cur])
            },
    ensures
        ({
            let lk2 = spliced_links(lk, update, new_level);
            let pos2 = spliced_pos(pos, pos[cur], lk.len() as int);
            forall|x: int, l: int|
                0 <= x < lk2.len() && 0 <= l < lk2[x].len() && (#[trigger] lk2[x][l]) is Some ==> {
                    let t = lk2[x][l].unwrap() as int;
                    &&& 1 <= t < lk2.len()
                    &&& pos2[t] > pos2[x]
                    &&& l < lk2[t].len()
                }
        }),
{
    let n = lk.len() as int;
    let p = pos[cur];
    let pos2 = spliced_pos(pos, p, n);
    let lk2 = spliced_links(lk, update, new_level);
    assert forall|x: int, l: int|
        0 <= x < n + 1 && 0 <= l < lk2[x].len() && (#[trigger] lk2[x][l]) is Some implies {
            let t = lk2[x][l].unwrap() as int;
            &&& 1 <= t < n + 1
            &&& pos2[t] > pos2[x]
            &&& l < lk2[t].len()
        } by {
        if x == n {
            let u = update[l] as int;
            assert(lk2[x][l] == lk[u][l]);
            assert(lk[u][l] is Some);
        } else if l < new_level && x == update[l] {
        } else {
            assert(lk2[x][l] == lk[x][l]);
        }
    }
}

/// Splicing keeps level 0 linking each node to the next one in the new order.
proof fn lemma_splice_level0(
    lk: Seq<Seq<Option<usize>>>,
    order: Seq<usize>,
    pos: Seq<int>,
    update: Seq<usize>,
    new_level: int,
    cur: int,
)
    requires
        lk.len() < usize::MAX,
        pos.len() == lk.len(),
        order.len() + 1 == lk.len(),
        forall|x: int| 0 <= x < lk.len() ==> -1 <= #[trigger] pos[x] < order.len(),
        forall|x: int| 0 <= x < lk.len() && x != cur ==> pos[x] != pos[cur],
        forall|x: int|
            0 <= x < lk.len() ==> 0 < (#[trigger] lk[x]).len() && lk[x][0] == if pos[x] + 1
                < order.len() {
                Some(order[pos[x] + 1])
            } else {
                None
            },
        0 <= cur < lk.len(),
        1 <= new_level <= update.len(),
        update[0] == cur,
    ensures
        ({
            let n = lk.len() as int;
            let lk2 = spliced_links(lk, update, new_level);
            let pos2 = spliced_pos(pos, pos[cur], n);
            let order2 = order.insert(pos[cur] + 1, n as usize);
            forall|x: int|
                0 <= x < lk2.len() ==> 0 < (#[trigger] lk2[x]).len() && lk2[x][0] == if pos2[x]
                    + 1 < order2.len() {
                    Some(order2[pos2[x] + 1])
                } else {
                    None
                }
        }),
{
    let n = lk.len() as int;
    let p = pos[cur];
    let order2 = order.insert(p + 1, n as usize);
    let pos2 = spliced_pos(pos, p, n);
    let lk2 = spliced_links(lk, update, new_level);
    assert forall|x: int| 0 <= x < n + 1 implies 0 < (#[trigger] lk2[x]).len() && lk2[x][0] == if pos2[x]
        + 1 < order2.len() {
        Some(order2[pos2[x] + 1])
    } else {
        None
    } by {
        if x == n {
            assert(lk2[x][0] == lk[cur][0]);
            assert(0 < lk[cur].len());
        } else {
            assert(0 < lk[x].len());
            if x == cur {
                assert(lk2[x][0] == Some(n as usize));
            } else {
                assert(lk2[x][0] == lk[x][0]);
                if pos[x] < p {
                    assert(order2[pos[x] + 1] == order[pos[x] + 1]);
                } else if pos[x] > p && pos[x] + 1 < order.len() {
                    assert(order2[pos[x] + 2] == order[pos[x] + 1]);
                }
            }
        }
    }
}


/// Calls `fastrand::usize(low..=high)`, which draws from the thread-local generator.
/// The number is random; only its range is stated. It panics on an empty range,
/// which `requires` rules out.
#[verifier::external_body]
fn random_usize_between(low: usize, high: usize) -> (r: usize)
    requires
        low <= high,
    ensures
        low <= r <= high,
{
    fastrand::usize(low..=high)
}

impl<K: TypeSkipListKey, V: TypeSkipListValue> SkipList<K, V> {
    /// A random level for a new node, between 1 and `max_level`.
    pub fn random_level(&self) -> (r: usize)
        requires
            self.level_cap() >= 1,
        ensures
            1 <= r <= self.level_cap(),
    {
        random_usize_between(1, self.max_level)
    }

    /// For every level, the last node before `key` on that level; the level-0 one
    /// is also returned on its own.
    #[verifier::spinoff_prover]
    #[verifier::rlimit(40)]
    fn find_predecessors(&self, key: &K) -> (res: (Vec<usize>, usize))
        requires
            self.wf(),
            self.level_cap() >= 1,
        ensures
            ({
                let (update, cur) = res;
                let n = self.nodes@.len() as int;
                let lk = link_view(self.nodes@);
                &&& update@.len() == self.max_level
                &&& cur < n
                &&& update@[0] == cur
                &&& (cur == 0 || K::key_lt(self.key_of(cur as int), key@))
                &&& (lk[cur as int][0] matches Some(t) ==> !K::key_lt(self.key_of(t as int), key@))
                &&& forall|l: int|
                    0 <= l < self.max_level ==> {
                        let u = #[trigger] update@[l] as int;
                        &&& 0 <= u < n
                        &&& self.pos@[u] <= self.pos@[cur as int]
                        &&& tall(lk, u, l)
                        &&& (lk[u][l] matches Some(t) ==> !K::key_lt(self.key_of(t as int), key@))
                    }
            }),
    {
        let ghost lk = link_view(self.nodes@);
        let ghost n = self.nodes@.len() as int;
        let ml = self.max_level;
        let mut update: Vec<usize> = Vec::new();
        let mut i: usize = 0;
        while i < ml
            invariant
                i <= ml,
                update@.len() == i,
            decreases ml - i,
        {
            update.push(0);
            i = i + 1;
        }
        let mut cur: usize = 0;
        let mut level: usize = ml;
        while level > 0
            invariant
                self.wf(),
                n == self.nodes@.len(),
                lk == link_view(self.nodes@),
                ml == self.max_level,
                update@.len() == ml,
                level <= ml,
                cur < n,
                level < lk[cur as int].len(),
                cur == 0 || level + 1 < lk[cur as int].len(),
                cur == 0 || K::key_lt(self.key_of(cur as int), key@),
                forall|l: int|
                    level <= l < ml ==> {
                        let u = #[trigger] update@[l] as int;
                        &&& 0 <= u < n
                        &&& self.pos@[u] <= self.pos@[cur as int]
                        &&& tall(lk, u, l)
                        &&& (lk[u][l] matches Some(t) ==> !K::key_lt(self.key_of(t as int), key@))
                    },
                level < ml ==> update@[level as int] == cur,
            decreases level,
        {
            level = level - 1;
            loop
                invariant
                    self.wf(),
                    n == self.nodes@.len(),
                    lk == link_view(self.nodes@),
                    update@.len() == ml,
                    level < ml,
                    cur < n,
                    level + 1 < lk[cur as int].len(),
                    cur == 0 || K::key_lt(self.key_of(cur as int), key@),
                    forall|l: int|
                        level < l < ml ==> {
                            let u = #[trigger] update@[l] as int;
                            &&& 0 <= u < n
                            &&& self.pos@[u] <= self.pos@[cur as int]
                            &&& tall(lk, u, l)
                            &&& (lk[u][l] matches Some(t) ==> !K::key_lt(
                                self.key_of(t as int),
                                key@,
                            ))
                        },
                ensures
                    cur < n,
                    level + 1 < lk[cur as int].len(),
                    cur == 0 || K::key_lt(self.key_of(cur as int), key@),
                    lk[cur as int][level as int] matches Some(t) ==> !K::key_lt(
                        self.key_of(t as int),
                        key@,
                    ),
                    forall|l: int|
                        level < l < ml ==> {
                            let u = #[trigger] update@[l] as int;
                            &&& 0 <= u < n
                            &&& self.pos@[u] <= self.pos@[cur as int]
                            &&& tall(lk, u, l)
                            &&& (lk[u][l] matches Some(t) ==> !K::key_lt(
                                self.key_of(t as int),
                                key@,
                            ))
                        },
                decreases self.order@.len() - self.pos@[cur as int],
            {
                assert(lk[cur as int] == self.nodes@[cur as int].forward@);
                match self.nodes[cur].forward[level] {
                    Some(next) => {
                        assert(lk[next as int] == self.nodes@[next as int].forward@);
                        proof {
                            reveal(tower_ok);
                            assert(lk[cur as int][level as int] == next_tall(lk, self.order@, level as int, self.pos@[cur as int] + 1));
                            lemma_first_tall_props(lk, self.order@, level as int, self.pos@[cur as int] + 1);
                        }
                        let c = self.nodes[next].data.key.compare_key(key);
                        if c != KeyOrder::Less {
                            break ;
                        }
                        cur = next;
                    },
                    None => {
                        break ;
                    },
                }
            }
            update.set(level, cur);
        }
        (update, cur)
    }

    /// The entries after a node holding `(key, value)` is placed at position `p + 1`.
    proof fn lemma_entries_spliced(
        old_nodes: Seq<SkipListNode<K, V>>,
        new_nodes: Seq<SkipListNode<K, V>>,
        old_order: Seq<usize>,
        p: int,
        key: K,
        value: V,
    )
        requires
            -1 <= p < old_order.len(),
            new_nodes.len() == old_nodes.len() + 1,
            forall|i: int| 0 <= i < old_order.len() ==> 0 <= #[trigger] old_order[i] < old_nodes.len(),
            forall|x: int| 0 <= x < old_nodes.len() ==> (#[trigger] new_nodes[x]).data == old_nodes[x].data,
            new_nodes[old_nodes.len() as int].data.key == key,
            new_nodes[old_nodes.len() as int].data.value == value,
            old_nodes.len() < usize::MAX,
        ensures
            entries_of(new_nodes, old_order.insert(p + 1, old_nodes.len() as usize)) == entries_of(
                old_nodes,
                old_order,
            ).insert(p + 1, (key@, value@)),
    {
        let order2 = old_order.insert(p + 1, old_nodes.len() as usize);
        let e2 = entries_of(new_nodes, order2);
        let e1 = entries_of(old_nodes, old_order).insert(p + 1, (key@, value@));
        assert forall|i: int| 0 <= i < order2.len() implies #[trigger] e2[i] == e1[i] by {
            if i < p + 1 {
                assert(order2[i] == old_order[i]);
            } else if i > p + 1 {
                assert(order2[i] == old_order[i - 1]);
            }
        }
        assert(e2 =~= e1);
    }

    /// A node of level `new_level` holding `key` and `value`, whose link on each
    /// level `l < new_level` is the current link of `update[l]` on that level.
    fn successor_node(&self, update: &Vec<usize>, new_level: usize, key: K, value: V) -> (r:
        SkipListNode<K, V>)
        requires
            self.wf(),
            1 <= new_level <= update@.len(),
            new_level <= self.max_level,
            forall|j: int|
                0 <= j < new_level ==> {
                    let u = #[trigger] update@[j] as int;
                    &&& 0 <= u < self.nodes@.len()
                    &&& j < self.nodes@[u].forward@.len()
                },
        ensures
            r.level == new_level,
            r.data.key == key,
            r.data.value == value,
            r.forward@ =~= spliced_links(link_view(self.nodes@), update@, new_level as int)[self.nodes@.len() as int],
    {
        let ghost lk = link_view(self.nodes@);
        let mut node = SkipListNode::new(new_level, key, value);
        let mut l: usize = 0;
        while l < new_level
            invariant
                lk == link_view(self.nodes@),
                1 <= new_level <= update@.len(),
                l <= new_level,
                node.level == new_level,
                node.data.key == key,
                node.data.value == value,
                node.forward@.len() == new_level + 1,
                forall|j: int| 0 <= j < l ==> node.forward@[j] == lk[update@[j] as int][j],
                forall|j: int| l <= j <= new_level ==> node.forward@[j] is None,
                forall|j: int|
                    0 <= j < new_level ==> {
                        let u = #[trigger] update@[j] as int;
                        &&& 0 <= u < self.nodes@.len()
                        &&& j < self.nodes@[u].forward@.len()
                    },
            decreases new_level - l,
        {
            let u = update[l];
            assert(lk[u as int] == self.nodes@[u as int].forward@);
            let t = self.nodes[u].forward[l];
            node.forward.set(l, t);
            l = l + 1;
        }
        node
    }

    /// Points the link of `update[l]` on each level `l < new_level` at node `idx`.
    fn redirect_links(nodes: &mut Vec<SkipListNode<K, V>>, update: &Vec<usize>, new_level: usize, idx: usize)
        requires
            new_level <= update@.len(),
            forall|j: int|
                0 <= j < new_level ==> {
                    let u = #[trigger] update@[j] as int;
                    &&& 0 <= u < old(nodes)@.len()
                    &&& j < old(nodes)@[u].forward@.len()
                },
        ensures
            final(nodes)@.len() == old(nodes)@.len(),
            forall|x: int|
                0 <= x < old(nodes)@.len() ==> {
                    &&& (#[trigger] final(nodes)@[x]).level == old(nodes)@[x].level
                    &&& final(nodes)@[x].data == old(nodes)@[x].data
                    &&& final(nodes)@[x].forward@ =~= Seq::new(
                        old(nodes)@[x].forward@.len(),
                        |j: int|
                            if j < new_level && x == update@[j] {
                                Some(idx)
                            } else {
                                old(nodes)@[x].forward@[j]
                            },
                    )
                },
    {
        let ghost mid = nodes@;
        let mut l: usize = 0;
        while l < new_level
            invariant
                nodes@.len() == mid.len(),
                new_level <= update@.len(),
                l <= new_level,
                forall|j: int|
                    0 <= j < new_level ==> {
                        let u = #[trigger] update@[j] as int;
                        &&& 0 <= u < mid.len()
                        &&& j < mid[u].forward@.len()
                    },
                forall|x: int|
                    0 <= x < mid.len() ==> {
                        &&& (#[trigger] nodes@[x]).level == mid[x].level
                        &&& nodes@[x].data == mid[x].data
                        &&& nodes@[x].forward@.len() == mid[x].forward@.len()
                        &&& forall|j: int|
                            0 <= j < mid[x].forward@.len() ==> #[trigger] nodes@[x].forward@[j]
                                == if j < l && x == update@[j] {
                                Some(idx)
                            } else {
                                mid[x].forward@[j]
                            }
                    },
            decreases new_level - l,
        {
            let u = update[l];
            nodes[u].forward.set(l, Some(idx));
            l = l + 1;
        }
    }

    /// Links a new node of level `new_level`, holding `key` and `value`, right after
    /// `cur` on level 0 and after `update[l]` on each level `l < new_level`.
    #[verifier::spinoff_prover]
    #[verifier::rlimit(60)]
    fn link_new_node(&mut self, update: &Vec<usize>, cur: usize, new_level: usize, key: K, value: V)
        requires
            old(self).wf(),
            old(self).nodes@.len() + 1 < usize::MAX,
            1 <= new_level <= old(self).max_level,
            update@.len() == old(self).max_level,
            update@[0] == cur,
            cur < old(self).nodes@.len(),
            forall|l: int|
                0 <= l < new_level ==> {
                    let u = #[trigger] update@[l] as int;
                    let lk = link_view(old(self).nodes@);
                    &&& 0 <= u < lk.len()
                    &&& old(self).pos@[u] <= old(self).pos@[cur as int]
                    &&& tall(lk, u, l)
                    &&& (lk[u][l] matches Some(t) ==> old(self).pos@[t as int] > old(self).pos@[cur as int])
                },
            keys_sorted::<K, V::V>(old(self)@.insert(old(self).pos@[cur as int] + 1, (key@, value@))),
        ensures
            final(self).wf(),
            final(self)@ == old(self)@.insert(old(self).pos@[cur as int] + 1, (key@, value@)),
            final(self).max_level == old(self).max_level,
            final(self).nodes@[0].data == old(self).nodes@[0].data,
            final(self).levels() == old(self).levels().insert(old(self).pos@[cur as int] + 1, new_level as int),
    {
        let ghost old_levels = self.levels();
        let ghost old_nodes = self.nodes@;
        let ghost lk = link_view(self.nodes@);
        let ghost n = self.nodes@.len() as int;
        let ghost p = self.pos@[cur as int];
        proof {
            assert forall|j: int| 0 <= j < new_level implies {
                let u = #[trigger] update@[j] as int;
                &&& 0 <= u < self.nodes@.len()
                &&& j < self.nodes@[u].forward@.len()
            } by {
                assert(lk[update@[j] as int] == self.nodes@[update@[j] as int].forward@);
            }
        }
        let node = self.successor_node(update, new_level, key, value);
        let idx = self.nodes.len();
        self.nodes.push(node);
        let ghost mid = self.nodes@;
        Self::redirect_links(&mut self.nodes, update, new_level, idx);
        let ghost new_order = self.order@.insert(p + 1, idx);
        let ghost new_pos = spliced_pos(self.pos@, p, n);
        proof {
            assert forall|x: int| 0 <= x < n implies (#[trigger] self.nodes@[x]).forward@ == Seq::new(
                old_nodes[x].forward@.len(),
                |j: int|
                    if j < new_level && x == update@[j] {
                        Some(n as usize)
                    } else {
                        old_nodes[x].forward@[j]
                    },
            ) by {
                assert(mid[x] == old_nodes[x]);
            }
            assert(self.nodes@[n].forward@ =~= mid[n].forward@) by {
                assert forall|j: int| 0 <= j < new_level implies update@[j] != n by {
                    assert(lk[update@[j] as int] == old_nodes[update@[j] as int].forward@);
                }
            }
            Self::lemma_link_wf(
                self.max_level,
                old_nodes,
                self.nodes@,
                self.order@,
                self.pos@,
                update@,
                new_level as int,
                cur as int,
                key,
                value,
            );
        }
        self.order = Ghost(new_order);
        self.pos = Ghost(new_pos);
        proof {
            assert(self.nodes@[n].level == new_level);
            assert forall|x: int| 0 <= x < n implies (#[trigger] self.nodes@[x]).level == old_nodes[x].level by {
                assert(mid[x] == old_nodes[x]);
            }
            assert(self.levels() =~= old_levels.insert(p + 1, new_level as int));
        }
    }

    /// The parts after `link_new_node` satisfy the invariant and list the new pair.
    proof fn lemma_link_wf(
        ml: usize,
        old_nodes: Seq<SkipListNode<K, V>>,
        new_nodes: Seq<SkipListNode<K, V>>,
        order: Seq<usize>,
        pos: Seq<int>,
        update: Seq<usize>,
        new_level: int,
        cur: int,
        key: K,
        value: V,
    )
        requires
            wf_parts::<K, V>(ml, old_nodes, order, pos),
            old_nodes.len() + 1 < usize::MAX,
            1 <= new_level <= ml,
            update.len() == ml,
            update[0] == cur,
            0 <= cur < old_nodes.len(),
            forall|l: int|
                0 <= l < new_level ==> {
                    let u = #[trigger] update[l] as int;
                    let lk = link_view(old_nodes);
                    &&& 0 <= u < lk.len()
                    &&& pos[u] <= pos[cur]
                    &&& tall(lk, u, l)
                    &&& (lk[u][l] matches Some(t) ==> pos[t as int] > pos[cur])
                },
            keys_sorted::<K, V::V>(entries_of(old_nodes, order).insert(pos[cur] + 1, (key@, value@))),
            new_nodes.len() == old_nodes.len() + 1,
            new_nodes[old_nodes.len() as int].level == new_level,
            new_nodes[old_nodes.len() as int].data.key == key,
            new_nodes[old_nodes.len() as int].data.value == value,
            new_nodes[old_nodes.len() as int].forward@ == spliced_links(link_view(old_nodes), update, new_level)[old_nodes.len() as int],
            forall|x: int|
                0 <= x < old_nodes.len() ==> {
                    &&& (#[trigger] new_nodes[x]).level == old_nodes[x].level
                    &&& new_nodes[x].data == old_nodes[x].data
                    &&& new_nodes[x].forward@ == Seq::new(
                        old_nodes[x].forward@.len(),
                        |j: int|
                            if j < new_level && x == update[j] {
                                Some(old_nodes.len() as usize)
                            } else {
                                old_nodes[x].forward@[j]
                            },
                    )
                },
        ensures
            wf_parts::<K, V>(
                ml,
                new_nodes,
                order.insert(pos[cur] + 1, old_nodes.len() as usize),
                spliced_pos(pos, pos[cur], old_nodes.len() as int),
            ),
            entries_of(new_nodes, order.insert(pos[cur] + 1, old_nodes.len() as usize)) == entries_of(
                old_nodes,
                order,
            ).insert(pos[cur] + 1, (key@, value@)),
    {
        let n = old_nodes.len() as int;
        let lk = link_view(old_nodes);
        let p = pos[cur];
        let order2 = order.insert(p + 1, n as usize);
        let pos2 = spliced_pos(pos, p, n);
        let lk2 = spliced_links(lk, update, new_level);
        assert(order_ok(n + 1, order2, pos2)) by {
            lemma_splice_order(order, pos, n, cur);
        }
        assert(link_view(new_nodes) == lk2) by {
            Self::lemma_link_view_spliced(old_nodes, new_nodes, update, new_level);
        }
        assert(links_ok(lk2, order2, pos2)) by {
            lemma_splice_links(lk, order, pos, update, new_level, cur);
        }
        assert(tower_ok(lk2, order2, pos2)) by {
            lemma_splice_tower(lk, order, pos, update, new_level, cur);
        }
        assert(entries_of(new_nodes, order2) == entries_of(old_nodes, order).insert(p + 1, (key@, value@))) by {
            Self::lemma_entries_spliced(old_nodes, new_nodes, order, p, key, value);
        }
        assert(shape_ok(ml, new_nodes)) by {
            assert(new_nodes[0].forward@.len() == old_nodes[0].forward@.len());
            assert forall|x: int| 1 <= x < new_nodes.len() implies 1 <= (#[trigger] new_nodes[x]).level
                <= ml && new_nodes[x].forward@.len() == new_nodes[x].level + 1 by {
                if x == n {
                    assert(new_nodes[x].forward@.len() == new_level + 1);
                }
            }
        }
    }

    proof fn lemma_link_view_spliced(
        old_nodes: Seq<SkipListNode<K, V>>,
        new_nodes: Seq<SkipListNode<K, V>>,
        update: Seq<usize>,
        new_level: int,
    )
        requires
            old_nodes.len() + 1 < usize::MAX,
            new_nodes.len() == old_nodes.len() + 1,
            new_nodes[old_nodes.len() as int].forward@ == spliced_links(link_view(old_nodes), update, new_level)[old_nodes.len() as int],
            forall|x: int|
                0 <= x < old_nodes.len() ==> (#[trigger] new_nodes[x]).forward@ == Seq::new(
                    old_nodes[x].forward@.len(),
                    |j: int|
                        if j < new_level && x == update[j] {
                            Some(old_nodes.len() as usize)
                        } else {
                            old_nodes[x].forward@[j]
                        },
                ),
        ensures
            link_view(new_nodes) == spliced_links(link_view(old_nodes), update, new_level),
    {
        let lk2 = spliced_links(link_view(old_nodes), update, new_level);
        assert forall|x: int| 0 <= x < new_nodes.len() implies link_view(new_nodes)[x] =~= lk2[x] by {
            if x < old_nodes.len() {
                assert(new_nodes[x].forward@ == lk2[x]);
            }
        }
        assert(link_view(new_nodes) =~= lk2);
    }

    /// Binds `key` to `value`: the value of an existing pair with that key is
    /// replaced, or a new node of random level is linked in where the key belongs.
    pub fn insert(&mut self, key: K, value: V)
        requires
            old(self).wf(),
            old(self).level_cap() >= 1,
            old(self)@.len() + 2 < usize::MAX,
        ensures
            final(self).wf(),
            final(self)@ == upsert::<K, V::V>(old(self)@, key@, value@),
            final(self).level_cap() == old(self).level_cap(),
            final(self).head_node().data == old(self).head_node().data,
            lookup(old(self)@, key@) is Some ==> final(self).levels() == old(self).levels(),
            lookup(old(self)@, key@) is None ==> exists|p: int, r: int|
                0 <= p <= old(self)@.len() && 1 <= r <= old(self).level_cap() && final(self).levels()
                    == old(self).levels().insert(p, r) && final(self)@[p].0 == key@,
    {
        let ghost old_levels = self.levels();
        let ghost lk = link_view(self.nodes@);
        let ghost n = self.nodes@.len() as int;
        let new_level = self.random_level();
        let (update, cur) = self.find_predecessors(&key);
        let ghost p = self.pos@[cur as int];
        assert(lk[cur as int] == self.nodes@[cur as int].forward@);
        let next0 = self.nodes[cur].forward[0];
        let mut found: Option<usize> = None;
        if let Some(nx) = next0 {
            if self.nodes[nx].data.key.compare_key(&key) == KeyOrder::Equal {
                found = Some(nx);
            }
        }
        let ghost old_view = self@;
        proof {
            assert forall|i: int| 0 <= i <= p implies K::key_lt((#[trigger] self@[i]).0, key@) by {
                let x = self.order@[i] as int;
                assert(self@[i].0 == self.key_of(x));
                if i < p {
                    self.lemma_sorted_nodes(x, cur as int);
                    K::lemma_key_order(self.key_of(x), self.key_of(cur as int), key@);
                }
            }
            if p + 1 < self@.len() {
                assert(self@[p + 1].0 == self.key_of(self.order@[p + 1] as int));
            }
            lemma_upsert_at::<K, V::V>(self@, key@, value@, p + 1);
        }
        match found {
            Some(nx) => {
                self.nodes[nx].data.value = value;
                proof {
                    assert(self.levels() =~= old_levels);
                    assert(old_view[p + 1].0 == key@);
                    lemma_sorted_lookup_at(&*old(self), p + 1);
                    assert(link_view(self.nodes@) =~= lk);
                    assert(self@ =~= old_view.update(p + 1, (key@, value@)));
                    lemma_update_value_sorted::<K, V::V>(old_view, p + 1, value@);
                }
            },
            None => {
                proof {
                    if p + 1 < old_view.len() {
                        K::lemma_key_order(key@, old_view[p + 1].0, key@);
                    }
                    assert forall|i: int| p + 1 <= i < old_view.len() implies K::key_lt(
                        key@,
                        (#[trigger] old_view[i]).0,
                    ) by {
                        if i > p + 1 {
                            K::lemma_key_order(key@, old_view[p + 1].0, old_view[i].0);
                        }
                    }
                    lemma_insert_sorted::<K, V::V>(old_view, p + 1, key@, value@);
                    assert forall|l: int| 0 <= l < new_level implies {
                        let u = #[trigger] update@[l] as int;
                        &&& 0 <= u < n
                        &&& self.pos@[u] <= self.pos@[cur as int]
                        &&& tall(lk, u, l)
                        &&& (lk[u][l] matches Some(t) ==> self.pos@[t as int] > self.pos@[cur as int])
                    } by {
                        let u = update@[l] as int;
                        if let Some(t) = lk[u][l] {
                            let t = t as int;
                            if self.pos@[t] <= p {
                                if self.pos@[t] == p {
                                    assert(self.order@[self.pos@[t]] == t);
                                } else {
                                    self.lemma_sorted_nodes(t, cur as int);
                                    K::lemma_key_order(self.key_of(t), self.key_of(cur as int), key@);
                                }
                            }
                        }
                    }
                }
                proof {
                    assert forall|i: int| 0 <= i < old_view.len() implies (#[trigger] old_view[i]).0 != key@ by {
                        K::lemma_key_order(key@, key@, key@);
                    }
                    lemma_lookup_absent(old_view, key@);
                }
                let ghost kv = key@;
                self.link_new_node(&update, cur, new_level, key, value);
                proof {
                    assert(self@[p + 1].0 == kv);
                    assert(self.levels() == old_levels.insert(p + 1, new_level as int));
                }
            },
        }
    }
}

/// Walking the nodes listed in `order` from index `i` on, with the walk on level `l`
/// standing at node `at`: for each node, whether the level-`l` link of `at` leads
/// to it (the walk then moves on to it).
pub open spec fn walk_marks(lk: Seq<Seq<Option<usize>>>, order: Seq<usize>, l: int, at: int, i: int) -> Seq<bool>
    decreases order.len() - i,
{
    if i >= order.len() || i < 0 {
        seq![]
    } else {
        let hit = 0 <= l < lk[at].len() && lk[at][l] == Some(order[i]);
        seq![hit] + walk_marks(lk, order, l, if hit {
            order[i] as int
        } else {
            at
        }, i + 1)
    }
}

/// A skip list of byte-string keys lists its pairs in dictionary order of the keys,
/// the order of `<` on `Vec<u8>`.
pub proof fn lemma_byte_keys_ascending<V: TypeSkipListValue>(list: &SkipList<Vec<u8>, V>)
    requires
        list.wf(),
    ensures
        forall|i: int, j: int|
            0 <= i < j < list@.len() ==> dictionary_before(#[trigger] list@[i].0, #[trigger] list@[j].0),
{
    list.lemma_view_sorted();
    assert forall|i: int, j: int| 0 <= i < j < list@.len() implies dictionary_before(
        #[trigger] list@[i].0,
        #[trigger] list@[j].0,
    ) by {
        lemma_lex_lt_is_dictionary(list@[i].0, list@[j].0);
    }
}

/// A skip list of `i32` keys lists its pairs in increasing numeric order of the
/// keys.
pub proof fn lemma_i32_keys_ascending<V: TypeSkipListValue>(list: &SkipList<i32, V>)
    requires
        list.wf(),
    ensures
        forall|i: int, j: int| 0 <= i < j < list@.len() ==> #[trigger] list@[i].0 < #[trigger] list@[j].0,
{
    list.lemma_view_sorted();
    assert forall|i: int, j: int| 0 <= i < j < list@.len() implies #[trigger] list@[i].0 < #[trigger] list@[j].0 by {
        lemma_i32_key_order(list@[i].0, list@[j].0);
    }
}

/// Walking level `l` from a node linked there marks exactly the nodes linked on `l`.
proof fn lemma_walk_tall(lk: Seq<Seq<Option<usize>>>, order: Seq<usize>, pos: Seq<int>, l: int, at: int, i: int)
    requires
        tower_ok(lk, order, pos),
        order_ok(lk.len() as int, order, pos),
        0 <= at < lk.len(),
        0 <= l,
        tall(lk, at, l),
        pos[at] + 1 <= i <= order.len(),
        forall|q: int| pos[at] + 1 <= q < i ==> !tall(lk, #[trigger] order[q] as int, l),
    ensures
        walk_marks(lk, order, l, at, i).len() == order.len() - i,
        forall|k: int|
            0 <= k < order.len() - i ==> #[trigger] walk_marks(lk, order, l, at, i)[k] == tall(
                lk,
                order[i + k] as int,
                l,
            ),
    decreases order.len() - i,
{
    if i < order.len() {
        reveal(tower_ok);
        let j = pos[at] + 1;
        assert(-1 <= pos[at]) by {
            if at >= 1 {
                assert(0 <= pos[at]);
            }
        }
        assert(lk[at][l] == next_tall(lk, order, l, j));
        lemma_first_tall_props(lk, order, l, j);
        let f = first_tall(lk, order, l, j);
        assert(f >= i) by {
            if f < i {
                assert(!tall(lk, order[f] as int, l));
            }
        }
        let ti = tall(lk, order[i] as int, l);
        if ti {
            lemma_first_tall_is(lk, order, l, j, i);
        } else if f < order.len() {
            assert(pos[order[f] as int] == f);
            assert(pos[order[i] as int] == i);
        }
        let hit = 0 <= l < lk[at].len() && lk[at][l] == Some(order[i]);
        assert(hit == ti);
        let next_at = if hit {
            order[i] as int
        } else {
            at
        };
        if hit {
            assert(pos[order[i] as int] == i);
        }
        lemma_walk_tall(lk, order, pos, l, next_at, i + 1);
        let w = walk_marks(lk, order, l, at, i);
        let rest = walk_marks(lk, order, l, next_at, i + 1);
        assert(w == seq![hit] + rest);
        assert forall|k: int| 0 <= k < order.len() - i implies #[trigger] w[k] == tall(
            lk,
            order[i + k] as int,
            l,
        ) by {
            if k > 0 {
                assert(w[k] == rest[k - 1]);
                assert(i + 1 + (k - 1) == i + k);
            }
        }
    }
}

impl<K: TypeSkipListKey, V: TypeSkipListValue> SkipList<K, V> {
    /// The drawing shows each pair on exactly the levels of its node: on each level
    /// below the cap, a pair is marked exactly when its node's level is above that
    /// level; every node's level is between 1 and the cap, so level 0 marks every
    /// pair.
    pub proof fn lemma_level_marks(&self)
        requires
            self.wf(),
        ensures
            self.levels().len() == self@.len(),
            self.level_marks().len() == self.level_cap(),
            forall|l: int| 0 <= l < self.level_cap() ==> (#[trigger] self.level_marks()[l]).len() == self@.len(),
            forall|i: int| 0 <= i < self.levels().len() ==> 1 <= #[trigger] self.levels()[i] <= self.level_cap(),
            forall|l: int, i: int|
                0 <= l < self.level_cap() && 0 <= i < self@.len() ==> #[trigger] self.level_marks()[l][i]
                    == (l < self.levels()[i]),
    {
        let lk = link_view(self.nodes@);
        let order = self.order@;
        assert forall|i: int| 0 <= i < self.levels().len() implies 1 <= #[trigger] self.levels()[i]
            <= self.level_cap() by {
            assert(1 <= order[i] < self.nodes@.len());
        }
        assert forall|l: int| 0 <= l < self.level_cap() implies (#[trigger] self.level_marks()[l]).len() == self@.len() by {
            assert(lk[0] == self.nodes@[0].forward@);
            lemma_walk_tall(lk, order, self.pos@, l, 0, 0);
        }
        assert forall|l: int, i: int| 0 <= l < self.level_cap() && 0 <= i < self@.len() implies #[trigger] self.level_marks()[l][i]
            == (l < self.levels()[i]) by {
            assert(lk[0] == self.nodes@[0].forward@);
            lemma_walk_tall(lk, order, self.pos@, l, 0, 0);
            assert(self.level_marks()[l] == walk_marks(lk, order, l, 0, 0));
            assert(walk_marks(lk, order, l, 0, 0)[i] == tall(lk, order[0 + i] as int, l));
            assert(1 <= order[i] < self.nodes@.len());
            assert(lk[order[i] as int] == self.nodes@[order[i] as int].forward@);
        }
    }
}

impl<K: TypeSkipListKey, V: TypeSkipListValue> SkipList<K, V> {
    /// For each level below the cap and each pair in key order, whether the pair
    /// is linked on that level, following the level's links from the head.
    pub closed spec fn level_marks(&self) -> Seq<Seq<bool>> {
        Seq::new(
            self.max_level as nat,
            |l: int| walk_marks(link_view(self.nodes@), self.order@, l, 0, 0),
        )
    }

    /// The drawing of the list, level by level from the top, with `key_texts[i]`
    /// the text shown for the `i`-th key in ascending order.
    pub fn render(&self, key_texts: &Vec<Vec<u8>>) -> (out: Vec<u8>)
        requires
            self.wf(),
            key_texts@.len() == self@.len(),
        ensures
            out@ == skiplist_drawing(self.level_cap() as nat, self.level_marks(), texts_of(key_texts@)),
    {
        let ghost texts = texts_of(key_texts@);
        let ghost marks = self.level_marks();
        let mut out: Vec<u8> = Vec::new();
        push_piece(&mut out, header_open_bytes());
        push_decimal(&mut out, self.max_level);
        push_piece(&mut out, header_close_bytes());
        let ghost prefix = out@;
        let mut level = self.max_level;
        assert(out@ =~= prefix + levels_text(marks, texts, self.max_level as int, level as int));
        proof {
            self.lemma_walk_facts();
        }
        while level > 0
            invariant
                walk_facts(link_view(self.nodes@), self.order@, self.pos@),
                key_texts@.len() == self.order@.len(),
                texts == texts_of(key_texts@),
                marks == self.level_marks(),
                level <= self.max_level,
                out@ == prefix + levels_text(marks, texts, self.max_level as int, level as int),
            decreases level,
        {
            level = level - 1;
            let ghost before = out@;
            self.render_level(&mut out, level, key_texts);
            proof {
                assert(marks[level as int] == walk_marks(link_view(self.nodes@), self.order@, level as int, 0, 0));
                lemma_levels_step(marks, texts, self.max_level as int, level as int);
                assert(out@ =~= prefix + levels_text(marks, texts, self.max_level as int, level as int));
            }
        }
        push_dashes(&mut out, 29);
        assert(out@ =~= skiplist_drawing(self.max_level as nat, marks, texts));
        out
    }
}

/// What a walk along the links needs: every listed node is a node with its place
/// in `pos`, and each node's level-0 link leads to the next listed node.
pub open spec fn walk_facts(lk: Seq<Seq<Option<usize>>>, order: Seq<usize>, pos: Seq<int>) -> bool {
    &&& 0 < lk.len()
    &&& pos.len() == lk.len()
    &&& pos[0] == -1
    &&& forall|i: int| 0 <= i < order.len() ==> #[trigger] order[i] < lk.len() && pos[order[i] as int] == i
    &&& forall|x: int|
        0 <= x < lk.len() ==> 0 < (#[trigger] lk[x]).len() && lk[x][0] == if pos[x] + 1 < order.len() {
            Some(order[pos[x] + 1])
        } else {
            None
        }
}

impl<K: TypeSkipListKey, V: TypeSkipListValue> SkipList<K, V> {
    proof fn lemma_walk_facts(&self)
        requires
            self.wf(),
        ensures
            walk_facts(link_view(self.nodes@), self.order@, self.pos@),
            self@.len() == self.order@.len(),
            link_view(self.nodes@).len() == self.nodes@.len(),
    {
    }
}

/// The lines from `top - 1` down to `b` are those down to `b + 1`, then line `b`.
proof fn lemma_levels_step(marks: Seq<Seq<bool>>, texts: Seq<Seq<u8>>, top: int, b: int)
    requires
        0 <= b < top,
    ensures
        levels_text(marks, texts, top, b) == levels_text(marks, texts, top, b + 1) + level_line(
            b as nat,
            marks[b],
            texts,
        ),
{
}

impl<K: TypeSkipListKey, V: TypeSkipListValue> SkipList<K, V> {
    /// Appends the line of level `level`.
    fn render_level(&self, out: &mut Vec<u8>, level: usize, key_texts: &Vec<Vec<u8>>)
        requires
            walk_facts(link_view(self.nodes@), self.order@, self.pos@),
            key_texts@.len() == self.order@.len(),
        ensures
            final(out)@ == old(out)@ + level_line(
                level as nat,
                walk_marks(link_view(self.nodes@), self.order@, level as int, 0, 0),
                texts_of(key_texts@),
            ),
    {
        push_piece(out, level_word_bytes());
        push_pad2(out, level);
        push_piece(out, head_word_bytes());
        self.render_row(out, level, key_texts);
        push_piece(out, nil_end_bytes());
        assert(final(out)@ =~= old(out)@ + level_line(
            level as nat,
            walk_marks(link_view(self.nodes@), self.order@, level as int, 0, 0),
            texts_of(key_texts@),
        ));
    }

    /// Appends the cells of level `level`, one per pair in key order.
    #[verifier::rlimit(40)]
    fn render_row(&self, out: &mut Vec<u8>, level: usize, key_texts: &Vec<Vec<u8>>)
        requires
            walk_facts(link_view(self.nodes@), self.order@, self.pos@),
            key_texts@.len() == self.order@.len(),
        ensures
            final(out)@ == old(out)@ + drawing_row(
                walk_marks(link_view(self.nodes@), self.order@, level as int, 0, 0),
                texts_of(key_texts@),
            ),
    {
        let ghost texts = texts_of(key_texts@);
        let ghost lk = link_view(self.nodes@);
        let ghost order = self.order@;
        let ghost row_start = old(out)@;
        let ghost row_marks = walk_marks(lk, order, level as int, 0, 0);
        let n = key_texts.len();
        assert(lk[0] == self.nodes@[0].forward@);
        let mut at: usize = 0;
        let mut col: Option<usize> = self.nodes[0].forward[0];
        let mut i: usize = 0;
        assert(texts.skip(0) =~= texts);
        assert(out@ + drawing_row(row_marks, texts.skip(0)) == row_start + drawing_row(row_marks, texts));
        while i < n
            invariant
                walk_facts(lk, order, self.pos@),
                lk.len() == self.nodes@.len(),
                n == key_texts@.len() == order.len(),
                texts == texts_of(key_texts@),
                lk == link_view(self.nodes@),
                order == self.order@,
                i <= n,
                at < self.nodes@.len(),
                col == if i < n {
                    Some(order[i as int])
                } else {
                    None::<usize>
                },
                out@ + drawing_row(walk_marks(lk, order, level as int, at as int, i as int), texts.skip(i as int))
                    == row_start + drawing_row(row_marks, texts),
            decreases n - i,
        {
            let x = match col {
                Some(x) => x,
                None => {
                    return;
                },
            };
            let ghost w = walk_marks(lk, order, level as int, at as int, i as int);
            let ghost rest = texts.skip(i as int);
            assert(lk[at as int] == self.nodes@[at as int].forward@);
            assert(self.pos@[order[i as int] as int] == i);
            let fwd = &self.nodes[at].forward;
            let hit = level < fwd.len() && match fwd[level] {
                Some(t) => t == x,
                None => false,
            };
            let ghost o0 = out@;
            push_piece(out, cell_open_bytes());
            if hit {
                append_text(out, &key_texts[i]);
            } else {
                push_dashes(out, key_texts[i].len());
            }
            out.push(93u8);
            proof {
                assert(rest[0] == key_texts@[i as int]@);
                assert(out@ =~= o0 + cell(w[0], rest[0]));
                assert(w.drop_first() =~= walk_marks(lk, order, level as int, if hit {
                    x as int
                } else {
                    at as int
                }, i + 1));
                assert(rest.drop_first() =~= texts.skip(i + 1));
            }
            if hit {
                at = x;
            }
            assert(lk[x as int] == self.nodes@[x as int].forward@);
            col = self.nodes[x].forward[0];
            i = i + 1;
        }
        assert(texts.skip(n as int).len() == 0);
    }
}

/// Appends the bytes of `text`.
fn append_text(out: &mut Vec<u8>, text: &Vec<u8>)
    ensures
        final(out)@ == old(out)@ + text@,
{
    crate::bytes_util::append_bytes(out, text);
}

/// Walks the pairs of a skip list in ascending key order, along level 0.
pub struct SkipListIterator<'a, K, V> {
    list: &'a SkipList<K, V>,
    next_node: Option<usize>,
    index: Ghost<int>,
}

impl<'a, K: TypeSkipListKey, V: TypeSkipListValue> SkipListIterator<'a, K, V> {
    /// The pairs not yet returned.
    pub closed spec fn remaining(&self) -> Seq<(K::V, V::V)> {
        self.list@.skip(self.index@)
    }

    pub closed spec fn valid(&self) -> bool {
        &&& self.list.wf()
        &&& 0 <= self.index@ <= self.list@.len()
        &&& self.next_node == if self.index@ < self.list@.len() {
            Some(self.list.order@[self.index@])
        } else {
            None
        }
    }

    /// The next pair, copied, or `None` once all were returned.
    pub fn next(&mut self) -> (r: Option<SkipListKV<K, V>>)
        requires
            old(self).valid(),
        ensures
            final(self).valid(),
            old(self).remaining().len() == 0 ==> r is None && final(self).remaining() == old(
                self,
            ).remaining(),
            old(self).remaining().len() > 0 ==> (r matches Some(kv) && (kv.key@, kv.value@) == old(
                self,
            ).remaining()[0] && final(self).remaining() == old(self).remaining().drop_first()),
    {
        match self.next_node {
            None => None,
            Some(x) => {
                let list = self.list;
                let ghost i = self.index@;
                proof {
                    list.lemma_view_at(i);
                    assert(link_view(list.nodes@)[x as int] == list.nodes@[x as int].forward@);
                }
                let node = &list.nodes[x];
                let kv = SkipListKV::new(node.data.key.clone_key(), node.data.value.clone_value());
                self.next_node = node.forward[0];
                self.index = Ghost(i + 1);
                assert(self.remaining() =~= old(self).remaining().drop_first());
                Some(kv)
            },
        }
    }
}

impl<K: TypeSkipListKey, V: TypeSkipListValue> SkipList<K, V> {
    /// An iterator over the pairs in ascending key order.
    pub fn iter(&self) -> (it: SkipListIterator<'_, K, V>)
        requires
            self.wf(),
        ensures
            it.valid(),
            it.remaining() == self@,
    {
        assert(link_view(self.nodes@)[0] == self.nodes@[0].forward@);
        let it = SkipListIterator { list: self, next_node: self.nodes[0].forward[0], index: Ghost(0) };
        assert(it.remaining() =~= self@);
        it
    }
}
} // verus!
