//! The Huffman coding tree. `HuffmanTree::build` turns a list of weighted
//! items into a binary prefix-code tree by repeatedly merging the pair of
//! nodes with the smallest combined weight, and the size reporters compare
//! the fixed-width encoding of the input against the Huffman encoding.
//!
//! The merge policy: every unordered pair of live nodes is scanned and the
//! first pair (in scan order) with the minimal combined weight is merged,
//! the node at the lower index becoming the left child. `build_spec` states
//! that policy exactly, so the shape of the resulting tree is pinned down,
//! tie-breaks included.

use vstd::prelude::*;

verus! {

use vstd::multiset::Multiset;

/// A symbol paired with the number of times it occurs. The tree never copies
/// or alters items; its leaves refer to them by index into the item list.
pub struct HuffmanTreeItem<T> {
    pub frequency: u32,
    pub data: Option<T>,
}

/// The historical short name for a tree item.
pub type TreeItem<T> = HuffmanTreeItem<T>;

/// A node of the code tree: either a leaf wrapping one item (by its index in
/// the item list) or an internal node with exactly two children.
pub struct HuffmanTreeNode {
    pub left: Option<Box<HuffmanTreeNode>>,
    pub right: Option<Box<HuffmanTreeNode>>,
    pub item: Option<usize>,
    pub weight: u32,
}

/// A Huffman code tree over an item list: the optional root of the node
/// graph plus the items the leaves refer to.
pub struct HuffmanTree<T> {
    pub tree: Option<Box<HuffmanTreeNode>>,
    pub data: Vec<HuffmanTreeItem<T>>,
}

/// The leaf node wrapping the item at `index`, whose frequency is `frequency`.
pub open spec fn leaf_node(index: usize, frequency: u32) -> HuffmanTreeNode {
    HuffmanTreeNode { left: None, right: None, item: Some(index), weight: frequency }
}

/// A well-formed node is a leaf (no children, one item) or an internal node
/// (two children, no item, weight equal to the sum of the children's).
pub open spec fn node_wf(n: HuffmanTreeNode) -> bool
    decreases n,
{
    match n.left {
        Some(l) => match n.right {
            Some(r) => {
                &&& n.item is None
                &&& n.weight == (*l).weight + (*r).weight
                &&& node_wf(*l)
                &&& node_wf(*r)
            },
            None => false,
        },
        None => n.right is None && n.item is Some,
    }
}

/// The item indices at the leaves of an optional child, in tree order.
pub open spec fn opt_leaves(o: Option<Box<HuffmanTreeNode>>) -> Seq<usize>
    decreases o,
{
    match o {
        Some(n) => node_leaves(*n),
        None => Seq::empty(),
    }
}

/// The item indices at the leaves below `n`, in tree order.
pub open spec fn node_leaves(n: HuffmanTreeNode) -> Seq<usize>
    decreases n,
{
    if n.item is Some {
        seq![n.item->0]
    } else {
        opt_leaves(n.left) + opt_leaves(n.right)
    }
}

/// The encoded bit count contributed by an optional child at `depth`.
pub open spec fn opt_cost(o: Option<Box<HuffmanTreeNode>>, depth: nat) -> nat
    decreases o,
{
    match o {
        Some(n) => node_cost(*n, depth),
        None => 0,
    }
}

/// The encoded bit count of the subtree at `n`, whose root sits at `depth`:
/// the sum over all leaves of leaf weight times leaf depth.
pub open spec fn node_cost(n: HuffmanTreeNode, depth: nat) -> nat
    decreases n,
{
    if n.item is Some {
        (n.weight as nat) * depth
    } else {
        opt_cost(n.left, depth + 1) + opt_cost(n.right, depth + 1)
    }
}

/// Like `node_cost` for an optional child, but reading each leaf's weight
/// from `freqs` rather than from the leaf itself.
pub open spec fn opt_cost_wrt(o: Option<Box<HuffmanTreeNode>>, freqs: Seq<u32>, depth: nat) -> nat
    decreases o,
{
    match o {
        Some(n) => node_cost_wrt(*n, freqs, depth),
        None => 0,
    }
}

/// Like `node_cost`, but reading each leaf's weight from `freqs`: the cost
/// the same tree shape would have under the frequencies `freqs`.
pub open spec fn node_cost_wrt(n: HuffmanTreeNode, freqs: Seq<u32>, depth: nat) -> nat
    decreases n,
{
    if n.item is Some {
        if n.item->0 < freqs.len() {
            (freqs[n.item->0 as int] as nat) * depth
        } else {
            0
        }
    } else {
        opt_cost_wrt(n.left, freqs, depth + 1) + opt_cost_wrt(n.right, freqs, depth + 1)
    }
}

/// Height of an optional child.
pub open spec fn opt_height(o: Option<Box<HuffmanTreeNode>>) -> nat
    decreases o,
{
    match o {
        Some(n) => node_height(*n),
        None => 0,
    }
}

/// Height of the subtree at `n`: 0 for a leaf.
pub open spec fn node_height(n: HuffmanTreeNode) -> nat
    decreases n,
{
    if n.item is Some {
        0
    } else {
        1 + if opt_height(n.left) >= opt_height(n.right) {
            opt_height(n.left)
        } else {
            opt_height(n.right)
        }
    }
}

/// Whether every leaf under the optional child carries the weight that
/// `freqs` assigns to its item index.
pub open spec fn opt_matches(o: Option<Box<HuffmanTreeNode>>, freqs: Seq<u32>) -> bool
    decreases o,
{
    match o {
        Some(n) => node_matches(*n, freqs),
        None => true,
    }
}

/// Whether every leaf under `n` refers to an index inside `freqs` and
/// carries exactly the frequency recorded there.
pub open spec fn node_matches(n: HuffmanTreeNode, freqs: Seq<u32>) -> bool
    decreases n,
{
    if n.item is Some {
        n.item->0 < freqs.len() && n.weight == freqs[n.item->0 as int]
    } else {
        opt_matches(n.left, freqs) && opt_matches(n.right, freqs)
    }
}

/// The frequencies of an item list, in order.
pub open spec fn freqs_of<T>(items: Seq<HuffmanTreeItem<T>>) -> Seq<u32> {
    items.map_values(|it: HuffmanTreeItem<T>| it.frequency)
}

/// The sum of all frequencies in the item list.
pub open spec fn freq_sum<T>(items: Seq<HuffmanTreeItem<T>>) -> int
    decreases items.len(),
{
    if items.len() == 0 {
        0
    } else {
        freq_sum(items.drop_last()) + items.last().frequency
    }
}

/// The sum of the weights of a working list of nodes.
pub open spec fn weight_sum(s: Seq<HuffmanTreeNode>) -> int
    decreases s.len(),
{
    if s.len() == 0 {
        0
    } else {
        weight_sum(s.drop_last()) + s.last().weight
    }
}

/// All leaf item indices below the nodes of a working list, as a multiset.
pub open spec fn list_leaf_ms(s: Seq<HuffmanTreeNode>) -> Multiset<usize>
    decreases s.len(),
{
    if s.len() == 0 {
        Multiset::empty()
    } else {
        list_leaf_ms(s.drop_last()).add(node_leaves(s.last()).to_multiset())
    }
}

/// Every node of the working list is well-formed.
pub open spec fn list_wf(s: Seq<HuffmanTreeNode>) -> bool {
    forall|k: int| 0 <= k < s.len() ==> node_wf(#[trigger] s[k])
}

/// Every node of the working list matches the frequencies `freqs`.
pub open spec fn list_matches(s: Seq<HuffmanTreeNode>, freqs: Seq<u32>) -> bool {
    forall|k: int| 0 <= k < s.len() ==> node_matches(#[trigger] s[k], freqs)
}

/// The sequence `0, 1, ..., n - 1`.
pub open spec fn index_seq(n: nat) -> Seq<usize> {
    Seq::new(n, |i: int| i as usize)
}

/// The weight of the node at position `i`.
pub open spec fn weight_at(s: Seq<HuffmanTreeNode>, i: int) -> int
    recommends
        0 <= i < s.len(),
{
    s[i].weight as int
}

/// The combined weight of the nodes at positions `i` and `j`.
pub open spec fn pair_weight(s: Seq<HuffmanTreeNode>, i: int, j: int) -> int
    recommends
        0 <= i < s.len(),
        0 <= j < s.len(),
{
    weight_at(s, i) + weight_at(s, j)
}

/// `(i, j)` is the merge pair the scan policy selects: an in-range pair with
/// minimal combined weight, and the first such pair in scan order (lowest
/// `i`, then lowest `j`).
pub open spec fn is_first_min_pair(s: Seq<HuffmanTreeNode>, i: int, j: int) -> bool {
    &&& 0 <= i < j < s.len()
    &&& forall|a: int, b: int|
        0 <= a < b < s.len() ==> pair_weight(s, i, j) <= #[trigger] pair_weight(s, a, b)
    &&& forall|a: int, b: int|
        0 <= a < b < s.len() && #[trigger] pair_weight(s, a, b) == pair_weight(s, i, j)
            ==> i < a || (i == a && j <= b)
}

/// The position of the lightest node among positions `lo .. hi`, the first
/// such position when several weigh the same.
pub open spec fn argmin_in(s: Seq<HuffmanTreeNode>, lo: int, hi: int) -> int
    recommends
        0 <= lo < hi <= s.len(),
    decreases hi - lo,
{
    if hi <= lo + 1 {
        lo
    } else {
        let prev = argmin_in(s, lo, hi - 1);
        if s[hi - 1].weight < s[prev].weight {
            hi - 1
        } else {
            prev
        }
    }
}

/// The selected pair among all pairs whose lower index is below `k`,
/// favouring lighter combined weight, then earlier scan order.
pub open spec fn best_pair_upto(s: Seq<HuffmanTreeNode>, k: int) -> (int, int)
    recommends
        2 <= s.len(),
        1 <= k <= s.len() - 1,
    decreases k,
{
    if k <= 1 {
        (0, argmin_in(s, 1, s.len() as int))
    } else {
        let prev = best_pair_upto(s, k - 1);
        let cand_j = argmin_in(s, k, s.len() as int);
        if pair_weight(s, k - 1, cand_j) < pair_weight(s, prev.0, prev.1) {
            (k - 1, cand_j)
        } else {
            prev
        }
    }
}

/// The merge pair the policy selects from the whole working list.
pub open spec fn first_min_pair(s: Seq<HuffmanTreeNode>) -> (int, int)
    recommends
        2 <= s.len(),
{
    best_pair_upto(s, s.len() - 1)
}

/// The internal node that merging `l` (the node at the lower index) and `r`
/// produces.
pub open spec fn merge_spec(l: HuffmanTreeNode, r: HuffmanTreeNode) -> HuffmanTreeNode {
    HuffmanTreeNode {
        left: Some(Box::new(l)),
        right: Some(Box::new(r)),
        item: None,
        weight: (l.weight + r.weight) as u32,
    }
}

/// One round of the builder: remove the selected pair and put their merge at
/// the front of the working list.
pub open spec fn build_step(s: Seq<HuffmanTreeNode>) -> Seq<HuffmanTreeNode>
    recommends
        2 <= s.len(),
{
    let p = first_min_pair(s);
    s.remove(p.0).remove(p.1 - 1).insert(0, merge_spec(s[p.0], s[p.1]))
}

/// The tree the builder produces from a non-empty working list: merge rounds
/// run until a single node remains.
pub open spec fn build_spec(s: Seq<HuffmanTreeNode>) -> HuffmanTreeNode
    recommends
        1 <= s.len(),
    decreases s.len(),
{
    if s.len() <= 1 {
        s[0]
    } else if build_step(s).len() < s.len() {
        build_spec(build_step(s))
    } else {
        s[0]
    }
}

/// The initial working list: one leaf per item, in item order.
pub open spec fn initial_leaves<T>(items: Seq<HuffmanTreeItem<T>>) -> Seq<HuffmanTreeNode> {
    Seq::new(items.len(), |i: int| leaf_node(i as usize, items[i].frequency))
}

proof fn lemma_weight_sum_nonneg(s: Seq<HuffmanTreeNode>)
    ensures
        weight_sum(s) >= 0,
    decreases s.len(),
{
    if s.len() > 0 {
        lemma_weight_sum_nonneg(s.drop_last());
    }
}

proof fn lemma_weight_sum_remove(s: Seq<HuffmanTreeNode>, i: int)
    requires
        0 <= i < s.len(),
    ensures
        weight_sum(s.remove(i)) == weight_sum(s) - s[i].weight,
    decreases s.len(),
{
    s.remove_ensures(i);
    if i == s.len() - 1 {
        assert(s.remove(i) =~= s.drop_last());
    } else {
        let t = s.remove(i);
        assert(t.last() == s.last());
        assert(t.drop_last() =~= s.drop_last().remove(i));
        lemma_weight_sum_remove(s.drop_last(), i);
        assert(s.drop_last()[i] == s[i]);
    }
}

proof fn lemma_single_le_weight_sum(s: Seq<HuffmanTreeNode>, i: int)
    requires
        0 <= i < s.len(),
    ensures
        s[i].weight <= weight_sum(s),
{
    lemma_weight_sum_remove(s, i);
    lemma_weight_sum_nonneg(s.remove(i));
}

proof fn lemma_pair_le_weight_sum(s: Seq<HuffmanTreeNode>, i: int, j: int)
    requires
        0 <= i < s.len(),
        0 <= j < s.len(),
        i != j,
    ensures
        s[i].weight + s[j].weight <= weight_sum(s),
{
    lemma_weight_sum_remove(s, i);
    s.remove_ensures(i);
    let t = s.remove(i);
    let j2: int = if j < i {
        j
    } else {
        j - 1
    };
    assert(t[j2] == s[j]);
    lemma_single_le_weight_sum(t, j2);
}

proof fn lemma_weight_sum_insert0(s: Seq<HuffmanTreeNode>, x: HuffmanTreeNode)
    ensures
        weight_sum(s.insert(0, x)) == x.weight + weight_sum(s),
    decreases s.len(),
{
    let t = s.insert(0, x);
    s.insert_ensures(0, x);
    if s.len() == 0 {
        assert(weight_sum(Seq::<HuffmanTreeNode>::empty()) == 0);
        assert(t.drop_last() =~= Seq::<HuffmanTreeNode>::empty());
        assert(t.last() == x);
    } else {
        assert(t.last() == s.last());
        assert(t.drop_last() =~= s.drop_last().insert(0, x));
        lemma_weight_sum_insert0(s.drop_last(), x);
    }
}

proof fn lemma_list_leaf_ms_remove(s: Seq<HuffmanTreeNode>, i: int)
    requires
        0 <= i < s.len(),
    ensures
        list_leaf_ms(s) == list_leaf_ms(s.remove(i)).add(node_leaves(s[i]).to_multiset()),
    decreases s.len(),
{
    broadcast use vstd::multiset::group_multiset_axioms;

    s.remove_ensures(i);
    if i == s.len() - 1 {
        assert(s.remove(i) =~= s.drop_last());
    } else {
        let t = s.remove(i);
        assert(t.last() == s.last());
        assert(t.drop_last() =~= s.drop_last().remove(i));
        lemma_list_leaf_ms_remove(s.drop_last(), i);
        assert(s.drop_last()[i] == s[i]);
        assert(list_leaf_ms(s.remove(i)).add(node_leaves(s[i]).to_multiset()) =~= list_leaf_ms(
            s,
        ));
    }
}

proof fn lemma_list_leaf_ms_insert0(s: Seq<HuffmanTreeNode>, x: HuffmanTreeNode)
    ensures
        list_leaf_ms(s.insert(0, x)) == list_leaf_ms(s).add(node_leaves(x).to_multiset()),
    decreases s.len(),
{
    broadcast use vstd::multiset::group_multiset_axioms;

    let t = s.insert(0, x);
    s.insert_ensures(0, x);
    if s.len() == 0 {
        assert(list_leaf_ms(Seq::<HuffmanTreeNode>::empty()) == Multiset::<usize>::empty());
        assert(t.drop_last() =~= Seq::<HuffmanTreeNode>::empty());
        assert(t.last() == x);
        assert(list_leaf_ms(t) =~= list_leaf_ms(s).add(node_leaves(x).to_multiset()));
    } else {
        assert(t.last() == s.last());
        assert(t.drop_last() =~= s.drop_last().insert(0, x));
        lemma_list_leaf_ms_insert0(s.drop_last(), x);
        assert(list_leaf_ms(t) =~= list_leaf_ms(s).add(node_leaves(x).to_multiset()));
    }
}

proof fn lemma_argmin_in(s: Seq<HuffmanTreeNode>, lo: int, hi: int)
    requires
        0 <= lo < hi <= s.len(),
    ensures
        ({
            let r = argmin_in(s, lo, hi);
            &&& lo <= r < hi
            &&& forall|t: int| lo <= t < hi ==> weight_at(s, r) <= #[trigger] weight_at(s, t)
            &&& forall|t: int|
                lo <= t < hi && #[trigger] weight_at(s, t) == weight_at(s, r) ==> r <= t
        }),
    decreases hi - lo,
{
    if hi > lo + 1 {
        lemma_argmin_in(s, lo, hi - 1);
    }
}

proof fn lemma_best_pair_upto(s: Seq<HuffmanTreeNode>, k: int)
    requires
        2 <= s.len(),
        1 <= k <= s.len() - 1,
    ensures
        ({
            let p = best_pair_upto(s, k);
            &&& 0 <= p.0 < k
            &&& p.0 < p.1 < s.len()
            &&& forall|a: int, b: int|
                0 <= a < k && a < b < s.len() ==> pair_weight(s, p.0, p.1) <= #[trigger] pair_weight(
                    s,
                    a,
                    b,
                )
            &&& forall|a: int, b: int|
                0 <= a < k && a < b < s.len() && #[trigger] pair_weight(s, a, b) == pair_weight(
                    s,
                    p.0,
                    p.1,
                ) ==> p.0 < a || (p.0 == a && p.1 <= b)
        }),
    decreases k,
{
    if k <= 1 {
        lemma_argmin_in(s, 1, s.len() as int);
    } else {
        lemma_best_pair_upto(s, k - 1);
        lemma_argmin_in(s, k, s.len() as int);
    }
}

/// The selected merge pair really is the first minimal-weight pair of the
/// working list, in scan order.
pub proof fn lemma_first_min_pair(s: Seq<HuffmanTreeNode>)
    requires
        2 <= s.len(),
    ensures
        ({
            let p = first_min_pair(s);
            is_first_min_pair(s, p.0, p.1)
        }),
{
    lemma_best_pair_upto(s, s.len() - 1);
}

proof fn lemma_build_step_len(s: Seq<HuffmanTreeNode>)
    requires
        2 <= s.len(),
    ensures
        build_step(s).len() == s.len() - 1,
{
    lemma_first_min_pair(s);
}

proof fn lemma_build_spec_unfold(s: Seq<HuffmanTreeNode>)
    requires
        2 <= s.len(),
    ensures
        build_spec(s) == build_spec(build_step(s)),
{
    lemma_build_step_len(s);
}

proof fn lemma_build_step_props(s: Seq<HuffmanTreeNode>, freqs: Seq<u32>)
    requires
        2 <= s.len(),
        list_wf(s),
        list_matches(s, freqs),
        weight_sum(s) <= u32::MAX,
    ensures
        ({
            let t = build_step(s);
            &&& t.len() == s.len() - 1
            &&& list_wf(t)
            &&& list_matches(t, freqs)
            &&& weight_sum(t) == weight_sum(s)
            &&& list_leaf_ms(t) == list_leaf_ms(s)
        }),
{
    broadcast use vstd::multiset::group_multiset_axioms;

    lemma_first_min_pair(s);
    let p = first_min_pair(s);
    let l = s[p.0];
    let r = s[p.1];
    let m = merge_spec(l, r);
    let s1 = s.remove(p.0);
    let s2 = s1.remove(p.1 - 1);
    let t = s2.insert(0, m);
    s.remove_ensures(p.0);
    s1.remove_ensures(p.1 - 1);
    s2.insert_ensures(0, m);
    assert(s1[p.1 - 1] == s[p.1]);
    lemma_pair_le_weight_sum(s, p.0, p.1);
    assert(l.weight + r.weight <= u32::MAX);
    assert(node_wf(m) && node_matches(m, freqs) && node_leaves(m) == node_leaves(l) + node_leaves(
        r,
    )) by {
        assert(*(Box::new(l)) == l);
        assert(*(Box::new(r)) == r);
    }
    lemma_weight_sum_remove(s, p.0);
    lemma_weight_sum_remove(s1, p.1 - 1);
    lemma_weight_sum_insert0(s2, m);
    lemma_list_leaf_ms_remove(s, p.0);
    lemma_list_leaf_ms_remove(s1, p.1 - 1);
    lemma_list_leaf_ms_insert0(s2, m);
    vstd::seq_lib::lemma_multiset_commutative(node_leaves(l), node_leaves(r));
    assert(list_leaf_ms(t) =~= list_leaf_ms(s));
    assert forall|k: int| 0 <= k < t.len() implies node_wf(#[trigger] t[k]) && node_matches(
        t[k],
        freqs,
    ) by {
        if k >= 1 {
            let k2: int = if k - 1 < p.1 - 1 {
                k - 1
            } else {
                k
            };
            assert(t[k] == s1[k2]);
            let k3: int = if k2 < p.0 {
                k2
            } else {
                k2 + 1
            };
            assert(t[k] == s[k3]);
        }
    }
}

proof fn lemma_build_spec_props(s: Seq<HuffmanTreeNode>, freqs: Seq<u32>)
    requires
        1 <= s.len(),
        list_wf(s),
        list_matches(s, freqs),
        weight_sum(s) <= u32::MAX,
    ensures
        ({
            let b = build_spec(s);
            &&& node_wf(b)
            &&& node_matches(b, freqs)
            &&& b.weight == weight_sum(s)
            &&& node_leaves(b).to_multiset() == list_leaf_ms(s)
        }),
    decreases s.len(),
{
    broadcast use vstd::multiset::group_multiset_axioms;

    if s.len() == 1 {
        assert(build_spec(s) == s[0]);
        assert(weight_sum(Seq::<HuffmanTreeNode>::empty()) == 0);
        assert(list_leaf_ms(Seq::<HuffmanTreeNode>::empty()) == Multiset::<usize>::empty());
        assert(s.drop_last() =~= Seq::<HuffmanTreeNode>::empty());
        assert(s.last() == s[0]);
        assert(node_leaves(s[0]).to_multiset() =~= list_leaf_ms(s));
    } else {
        lemma_build_step_props(s, freqs);
        lemma_build_spec_unfold(s);
        lemma_build_spec_props(build_step(s), freqs);
    }
}

proof fn lemma_initial_leaves<T>(items: Seq<HuffmanTreeItem<T>>)
    requires
        items.len() <= usize::MAX,
    ensures
        initial_leaves(items).len() == items.len(),
        list_wf(initial_leaves(items)),
        list_matches(initial_leaves(items), freqs_of(items)),
        weight_sum(initial_leaves(items)) == freq_sum(items),
        list_leaf_ms(initial_leaves(items)) == index_seq(items.len()).to_multiset(),
    decreases items.len(),
{
    broadcast use vstd::multiset::group_multiset_axioms;
    broadcast use vstd::seq_lib::group_to_multiset_ensures;

    let s = initial_leaves(items);
    let n = items.len() as int;
    assert forall|k: int| 0 <= k < n implies node_wf(#[trigger] s[k]) && node_matches(
        s[k],
        freqs_of(items),
    ) by {
        assert(s[k] == leaf_node(k as usize, items[k].frequency));
        assert(freqs_of(items)[k] == items[k].frequency);
    }
    if items.len() == 0 {
        assert(index_seq(0) =~= Seq::<usize>::empty());
        assert(list_leaf_ms(s) =~= index_seq(items.len()).to_multiset());
    } else {
        assert(items.drop_last().len() <= usize::MAX);
        lemma_initial_leaves::<T>(items.drop_last());
        assert(s.drop_last() =~= initial_leaves(items.drop_last()));
        assert(s.last() == leaf_node((n - 1) as usize, items[n - 1].frequency));
        assert(items.drop_last().len() == items.len() - 1);
        assert(index_seq(items.len()) =~= index_seq((items.len() - 1) as nat).push(
            (n - 1) as usize,
        ));
        assert(node_leaves(s.last()) =~= seq![(n - 1) as usize]);
        assert(seq![(n - 1) as usize] =~= Seq::<usize>::empty().push((n - 1) as usize));
        assert(list_leaf_ms(s) =~= index_seq(items.len()).to_multiset());
    }
}

proof fn lemma_freq_sum_take_succ<T>(items: Seq<HuffmanTreeItem<T>>, k: int)
    requires
        0 <= k < items.len(),
    ensures
        freq_sum(items.take(k + 1)) == freq_sum(items.take(k)) + items[k].frequency,
{
    assert(items.take(k + 1).drop_last() =~= items.take(k));
    assert(items.take(k + 1).last() == items[k]);
}

proof fn lemma_freq_sum_take_le<T>(items: Seq<HuffmanTreeItem<T>>, k: int)
    requires
        0 <= k <= items.len(),
    ensures
        freq_sum(items.take(k)) <= freq_sum(items),
    decreases items.len() - k,
{
    if k == items.len() {
        assert(items.take(k) =~= items);
    } else {
        lemma_freq_sum_take_succ(items, k);
        lemma_freq_sum_take_le(items, k + 1);
    }
}

proof fn lemma_height_lt_leaves(n: HuffmanTreeNode)
    requires
        node_wf(n),
    ensures
        node_height(n) < node_leaves(n).len(),
    decreases n,
{
    if n.item is None {
        match n.left {
            Some(l) => {
                match n.right {
                    Some(r) => {
                        lemma_height_lt_leaves(*l);
                        lemma_height_lt_leaves(*r);
                    },
                    None => {},
                }
            },
            None => {},
        }
    }
}

/// Law: the encoded size of a well-formed subtree rooted at `depth` is at
/// most its weight times the deepest leaf's depth. With the root weight
/// equal to the total frequency and the height below the leaf count, this
/// bounds the encoded size by total frequency times alphabet size.
pub proof fn lemma_cost_bound(n: HuffmanTreeNode, depth: nat)
    requires
        node_wf(n),
    ensures
        node_cost(n, depth) <= (depth + node_height(n)) * n.weight,
    decreases n,
{
    if n.item is Some {
        vstd::arithmetic::mul::lemma_mul_inequality(
            depth as int,
            (depth + node_height(n)) as int,
            n.weight as int,
        );
    } else {
        match n.left {
            Some(l) => {
                match n.right {
                    Some(r) => {
                        lemma_cost_bound(*l, depth + 1);
                        lemma_cost_bound(*r, depth + 1);
                        let d = (depth + node_height(n)) as int;
                        vstd::arithmetic::mul::lemma_mul_inequality(
                            (depth + 1 + node_height(*l)) as int,
                            d,
                            (*l).weight as int,
                        );
                        vstd::arithmetic::mul::lemma_mul_inequality(
                            (depth + 1 + node_height(*r)) as int,
                            d,
                            (*r).weight as int,
                        );
                        vstd::arithmetic::mul::lemma_mul_is_distributive_add(
                            d,
                            (*l).weight as int,
                            (*r).weight as int,
                        );
                    },
                    None => {},
                }
            },
            None => {},
        }
    }
}

/// Law: the encoded size agrees with the cost of the same tree shape read
/// off a frequency table, wherever the leaf weights match that table.
pub proof fn lemma_cost_wrt_agrees(n: HuffmanTreeNode, freqs: Seq<u32>, depth: nat)
    requires
        node_matches(n, freqs),
    ensures
        node_cost(n, depth) == node_cost_wrt(n, freqs, depth),
    decreases n,
{
    if n.item is None {
        match n.left {
            Some(l) => {
                lemma_cost_wrt_agrees(*l, freqs, depth + 1);
            },
            None => {},
        }
        match n.right {
            Some(r) => {
                lemma_cost_wrt_agrees(*r, freqs, depth + 1);
            },
            None => {},
        }
    }
}

/// Law: on a fixed tree shape, raising frequencies never lowers the encoded
/// size; the weighted depth sum is monotone in every single frequency.
pub proof fn lemma_cost_monotone(n: HuffmanTreeNode, f1: Seq<u32>, f2: Seq<u32>, depth: nat)
    requires
        f1.len() == f2.len(),
        forall|i: int| 0 <= i < f1.len() ==> f1[i] <= #[trigger] f2[i],
    ensures
        node_cost_wrt(n, f1, depth) <= node_cost_wrt(n, f2, depth),
    decreases n,
{
    if n.item is Some {
        if n.item->0 < f1.len() {
            vstd::arithmetic::mul::lemma_mul_inequality(
                f1[n.item->0 as int] as int,
                f2[n.item->0 as int] as int,
                depth as int,
            );
        }
    } else {
        match n.left {
            Some(l) => {
                lemma_cost_monotone(*l, f1, f2, depth + 1);
            },
            None => {},
        }
        match n.right {
            Some(r) => {
                lemma_cost_monotone(*r, f1, f2, depth + 1);
            },
            None => {},
        }
    }
}

/// Law: for a non-empty item list, the leaves of the built tree are exactly
/// the item indices `0 .. n - 1`, each occurring once.
pub proof fn lemma_build_leaves_exact<T>(items: Seq<HuffmanTreeItem<T>>)
    requires
        1 <= items.len() <= usize::MAX,
        freq_sum(items) <= u32::MAX,
    ensures
        node_leaves(build_spec(initial_leaves(items))).to_multiset() == index_seq(
            items.len(),
        ).to_multiset(),
        node_leaves(build_spec(initial_leaves(items))).len() == items.len(),
{
    lemma_initial_leaves::<T>(items);
    lemma_build_spec_props(initial_leaves(items), freqs_of(items));
    node_leaves(build_spec(initial_leaves(items))).to_multiset_ensures();
    index_seq(items.len()).to_multiset_ensures();
}

/// Law: the built tree is strictly binary — every internal node has exactly
/// two children and the weight of the children's sum — and its root weight
/// is the total frequency. Its leaf weights match the item frequencies.
pub proof fn lemma_build_strictly_binary<T>(items: Seq<HuffmanTreeItem<T>>)
    requires
        1 <= items.len() <= usize::MAX,
        freq_sum(items) <= u32::MAX,
    ensures
        node_wf(build_spec(initial_leaves(items))),
        node_matches(build_spec(initial_leaves(items)), freqs_of(items)),
        build_spec(initial_leaves(items)).weight == freq_sum(items),
{
    lemma_initial_leaves::<T>(items);
    lemma_build_spec_props(initial_leaves(items), freqs_of(items));
}

/// Law: the encoded size of the built tree is at most the item count times
/// the total frequency, so it fits whenever that product does.
pub proof fn lemma_built_cost_bound<T>(items: Seq<HuffmanTreeItem<T>>)
    requires
        1 <= items.len() <= usize::MAX,
        freq_sum(items) <= u32::MAX,
    ensures
        node_cost(build_spec(initial_leaves(items)), 0) <= items.len() * freq_sum(items),
{
    let b = build_spec(initial_leaves(items));
    lemma_build_strictly_binary::<T>(items);
    lemma_build_leaves_exact::<T>(items);
    lemma_cost_bound(b, 0);
    lemma_height_lt_leaves(b);
    vstd::arithmetic::mul::lemma_mul_inequality(
        node_height(b) as int,
        items.len() as int,
        b.weight as int,
    );
}

/// Law: a one-item alphabet needs zero bits — the tree built from a single
/// item is a lone leaf at depth zero, so its encoded size is zero.
pub proof fn lemma_single_item_zero_cost<T>(items: Seq<HuffmanTreeItem<T>>)
    requires
        items.len() == 1,
    ensures
        node_cost(build_spec(initial_leaves(items)), 0) == 0,
{
    assert(initial_leaves(items)[0] == leaf_node(0, items[0].frequency));
    assert(build_spec(initial_leaves(items)) == initial_leaves(items)[0]);
}

/// Law: a tree without a root encodes to zero bits.
pub proof fn lemma_no_root_zero_cost<T>(t: HuffmanTree<T>)
    requires
        t.tree is None,
    ensures
        t.encoded_cost() == 0,
{
}

fn argmin_weight(list: &Vec<HuffmanTreeNode>, lo: usize) -> (r: usize)
    requires
        lo < list@.len(),
    ensures
        lo <= r < list@.len(),
        r as int == argmin_in(list@, lo as int, list@.len() as int),
{
    let len = list.len();
    let mut best: usize = lo;
    let mut k: usize = lo + 1;
    while k < len
        invariant
            len == list@.len(),
            lo <= best < k <= list@.len(),
            lo < list@.len(),
            best as int == argmin_in(list@, lo as int, k as int),
        decreases list@.len() - k,
    {
        if list[k].weight < list[best].weight {
            best = k;
        }
        k = k + 1;
    }
    best
}

impl<T> HuffmanTreeItem<T> {
    /// An item holding `data` with the given occurrence count.
    pub fn new(data: T, frequency: u32) -> (r: Self)
        ensures
            r.frequency == frequency,
            r.data == Some(data),
    {
        Self { data: Some(data), frequency }
    }

    /// The leaf node wrapping this item, which lives at `index` in the item
    /// list; its weight is the item's frequency.
    pub fn create_node(&self, index: usize) -> (r: HuffmanTreeNode)
        ensures
            r == leaf_node(index, self.frequency),
    {
        HuffmanTreeNode { left: None, right: None, item: Some(index), weight: self.frequency }
    }
}

impl<T> HuffmanTree<T> {
    /// The root node, if any, with its box peeled off.
    pub open spec fn tree_view(self) -> Option<HuffmanTreeNode> {
        match self.tree {
            Some(b) => Some(*b),
            None => None,
        }
    }

    /// The tree is absent or well-formed over this item list.
    pub open spec fn wf(self) -> bool {
        match self.tree_view() {
            Some(n) => {
                &&& node_wf(n)
                &&& node_matches(n, freqs_of(self.data@))
                &&& node_leaves(n).len() <= self.data@.len()
            },
            None => true,
        }
    }

    /// The encoded size in bits that the size reporter computes: 0 without a
    /// root, otherwise the weighted depth sum of the root's subtree.
    pub open spec fn encoded_cost(self) -> nat {
        match self.tree_view() {
            Some(n) => node_cost(n, 0),
            None => 0,
        }
    }

    /// An unbuilt tree over the given items.
    pub fn new(data: Vec<HuffmanTreeItem<T>>) -> (r: Self)
        ensures
            r.tree is None,
            r.data == data,
            r.wf(),
    {
        Self { tree: None, data }
    }

    /// Merges two removed nodes into a fresh internal node; the node that
    /// stood at the lower index is handed in first and becomes `left`.
    fn merge_nodes(left: HuffmanTreeNode, right: HuffmanTreeNode) -> (r: HuffmanTreeNode)
        requires
            left.weight + right.weight <= u32::MAX,
        ensures
            r == merge_spec(left, right),
    {
        let weight = left.weight + right.weight;
        HuffmanTreeNode { left: Some(Box::new(left)), right: Some(Box::new(right)), item: None, weight }
    }

    /// Scans every pair of positions in the working list and hands back the
    /// first pair (lowest first index, then lowest second index) whose
    /// combined weight is minimal.
    fn get_min_weight_index(list: &Vec<HuffmanTreeNode>) -> (r: (usize, usize))
        requires
            2 <= list@.len(),
        ensures
            r.0 < r.1 < list@.len(),
            (r.0 as int, r.1 as int) == first_min_pair(list@),
            is_first_min_pair(list@, r.0 as int, r.1 as int),
    {
        let ghost s = list@;
        let len = list.len();
        let mut best_i: usize = 0;
        let mut best_j: usize = argmin_weight(list, 1);
        let mut i: usize = 1;
        while i < len - 1
            invariant
                list@ == s,
                2 <= s.len(),
                len == s.len(),
                1 <= i <= s.len() - 1,
                best_i < best_j < s.len(),
                (best_i as int, best_j as int) == best_pair_upto(s, i as int),
            decreases s.len() - 1 - i,
        {
            let j = argmin_weight(list, i + 1);
            let wc = (list[i].weight as u64) + (list[j].weight as u64);
            let wb = (list[best_i].weight as u64) + (list[best_j].weight as u64);
            if wc < wb {
                best_i = i;
                best_j = j;
            }
            i = i + 1;
        }
        proof {
            lemma_first_min_pair(s);
        }
        (best_i, best_j)
    }

    /// Builds the code tree: nothing happens on an empty item list; otherwise
    /// one leaf per item is laid out in item order and the minimum-weight
    /// merge round repeats until a single root remains. The result is exactly
    /// the tree that `build_spec` describes.
    pub fn build(&mut self)
        requires
            freq_sum(old(self).data@) <= u32::MAX,
        ensures
            final(self).data == old(self).data,
            old(self).data@.len() == 0 ==> final(self).tree == old(self).tree,
            old(self).data@.len() >= 1 ==> final(self).tree_view() == Some(
                build_spec(initial_leaves(old(self).data@)),
            ),
            old(self).data@.len() >= 1 ==> final(self).wf(),
    {
        let n = self.data.len();
        if n == 0 {
            return ;
        }
        let mut list: Vec<HuffmanTreeNode> = Vec::new();
        let mut k: usize = 0;
        while k < n
            invariant
                self.data == old(self).data,
                self.tree == old(self).tree,
                n == self.data@.len(),
                k <= n,
                list@.len() == k as int,
                forall|q: int| 0 <= q < k ==> list@[q] == initial_leaves(self.data@)[q],
            decreases n - k,
        {
            let it = &self.data[k];
            let node = it.create_node(k);
            list.push(node);
            k = k + 1;
        }
        proof {
            assert(list@ =~= initial_leaves(self.data@));
            lemma_initial_leaves::<T>(self.data@);
        }
        while list.len() > 1
            invariant
                self.data == old(self).data,
                self.tree == old(self).tree,
                freq_sum(self.data@) <= u32::MAX,
                1 <= list@.len(),
                weight_sum(list@) == freq_sum(self.data@),
                build_spec(list@) == build_spec(initial_leaves(self.data@)),
            decreases list@.len(),
        {
            let ghost s = list@;
            let idx = Self::get_min_weight_index(&list);
            let i = idx.0;
            let j = idx.1;
            proof {
                lemma_pair_le_weight_sum(s, i as int, j as int);
                lemma_weight_sum_remove(s, i as int);
                s.remove_ensures(i as int);
                lemma_weight_sum_remove(s.remove(i as int), j as int - 1);
                s.remove(i as int).remove_ensures(j as int - 1);
            }
            let left = list.remove(i);
            let right = list.remove(j - 1);
            let merged = Self::merge_nodes(left, right);
            list.insert(0, merged);
            proof {
                lemma_weight_sum_insert0(s.remove(i as int).remove(j as int - 1), merged);
                assert(list@ == build_step(s));
                lemma_build_spec_unfold(s);
            }
        }
        let root = list.pop().unwrap();
        proof {
            assert(root == build_spec(initial_leaves(self.data@)));
        }
        self.tree = Some(Box::new(root));
        proof {
            lemma_initial_leaves::<T>(self.data@);
            lemma_build_spec_props(initial_leaves(self.data@), freqs_of(self.data@));
            let b = build_spec(initial_leaves(self.data@));
            node_leaves(b).to_multiset_ensures();
            index_seq(self.data@.len()).to_multiset_ensures();
            assert(node_leaves(b).len() == self.data@.len());
        }
    }

    /// The bit count of the naive fixed-width encoding: eight bits for every
    /// occurrence of every item, and zero for an empty item list.
    pub fn original_data_size(&self) -> (r: usize)
        requires
            8 * freq_sum(self.data@) <= usize::MAX,
        ensures
            r == 8 * freq_sum(self.data@),
    {
        let n = self.data.len();
        let mut total: usize = 0;
        let mut k: usize = 0;
        while k < n
            invariant
                n == self.data@.len(),
                k <= n,
                8 * freq_sum(self.data@) <= usize::MAX,
                total == freq_sum(self.data@.take(k as int)),
            decreases n - k,
        {
            proof {
                lemma_freq_sum_take_succ(self.data@, k as int);
                lemma_freq_sum_take_le(self.data@, k as int + 1);
            }
            let it = &self.data[k];
            total = total + (it.frequency as usize);
            k = k + 1;
        }
        proof {
            assert(self.data@.take(n as int) =~= self.data@);
        }
        total * 8
    }

    /// The weighted depth sum of one subtree whose root sits at `depth`.
    fn node_size(node: &HuffmanTreeNode, depth: usize) -> (r: usize)
        requires
            node_wf(*node),
            depth + node_height(*node) <= usize::MAX,
            node_cost(*node, depth as nat) <= usize::MAX,
        ensures
            r == node_cost(*node, depth as nat),
        decreases *node,
    {
        if node.item.is_some() {
            (node.weight as usize) * depth
        } else {
            match (&node.left, &node.right) {
                (Some(l), Some(r)) => {
                    let a = Self::node_size(&**l, depth + 1);
                    let b = Self::node_size(&**r, depth + 1);
                    a + b
                },
                _ => {
                    proof {
                        assert(false);
                    }
                    0
                },
            }
        }
    }

    /// The bit count of the Huffman encoding: the sum over all leaves of
    /// leaf frequency times leaf depth, and zero when there is no root.
    pub fn encoded_data_size(&self) -> (r: usize)
        requires
            self.wf(),
            self.encoded_cost() <= usize::MAX,
        ensures
            r == self.encoded_cost(),
    {
        let n = self.data.len();
        match &self.tree {
            None => 0,
            Some(root) => {
                proof {
                    lemma_height_lt_leaves(**root);
                }
                Self::node_size(&**root, 0)
            },
        }
    }
}

} // verus!
