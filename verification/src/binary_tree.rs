//! An ordered binary tree of `u64` values. Each distinct value is stored in
//! one node together with the number of times it was inserted; an in-order
//! walk hands the distinct values back in ascending or descending order.

use vstd::prelude::*;

verus! {

/// Direction of an in-order walk over the tree.
pub enum TraverseMode {
    Ascending,
    Descending,
}

/// A non-empty ordered binary tree: values smaller than `value` are kept in
/// the left subtree, larger ones in the right subtree, and `count` records
/// how many times `value` was inserted.
pub struct BinaryTree {
    value: u64,
    right: Option<Box<BinaryTree>>,
    left: Option<Box<BinaryTree>>,
    count: usize,
}

/// How often each distinct value occurs, as a mathematical map.
spec fn subtree_counts(o: Option<Box<BinaryTree>>) -> Map<u64, nat>
    decreases o,
{
    match o {
        Some(node) => node.counts(),
        None => Map::empty(),
    }
}

/// `counts` after one more insertion of `value`.
pub open spec fn counts_bumped(m: Map<u64, nat>, value: u64) -> Map<u64, nat> {
    m.insert(value, if m.dom().contains(value) { m[value] + 1 } else { 1nat })
}

impl BinaryTree {
    /// How often each distinct value occurs, as a mathematical map.
    pub closed spec fn counts(self) -> Map<u64, nat>
        decreases self,
    {
        subtree_counts(self.left).union_prefer_right(subtree_counts(self.right)).insert(
            self.value,
            self.count as nat,
        )
    }

    /// The ordering invariant: every value in the left subtree is smaller
    /// than this node's value, every value in the right subtree larger.
    pub closed spec fn ordered(self) -> bool
        decreases self,
    {
        &&& forall|v: u64| subtree_counts(self.left).dom().contains(v) ==> v < self.value
        &&& forall|v: u64| subtree_counts(self.right).dom().contains(v) ==> v > self.value
        &&& match self.left {
            Some(node) => node.ordered(),
            None => true,
        }
        &&& match self.right {
            Some(node) => node.ordered(),
            None => true,
        }
    }

    /// A tree holding `value` once.
    pub fn new(value: u64) -> (r: Self)
        ensures
            r.ordered(),
            r.counts() == Map::empty().insert(value, 1nat),
    {
        let r = Self { value, right: None, left: None, count: 1 };
        proof {
            assert(r.counts() =~= Map::empty().insert(value, 1nat));
        }
        r
    }

    /// Inserts `value` into the given child slot, creating a node when the
    /// slot is empty.
    fn next_node_or_create(next_node: &mut Option<Box<BinaryTree>>, value: u64)
        requires
            *old(next_node) matches Some(node) ==> node.ordered(),
            subtree_counts(*old(next_node)).dom().contains(value)
                ==> subtree_counts(*old(next_node))[value] < usize::MAX,
        ensures
            *final(next_node) matches Some(node) ==> node.ordered(),
            subtree_counts(*final(next_node)) == counts_bumped(
                subtree_counts(*old(next_node)),
                value,
            ),
            subtree_counts(*final(next_node)).dom() == subtree_counts(*old(next_node)).dom().insert(
                value,
            ),
        decreases *old(next_node),
    {
        match next_node.take() {
            Some(mut node) => {
                (&mut *node).insert_node(value);
                *next_node = Some(node);
            }
            None => {
                *next_node = Some(
                    Box::new(BinaryTree { value, right: None, left: None, count: 1 }),
                );
            }
        }
        proof {
            assert(subtree_counts(*next_node) =~= counts_bumped(
                subtree_counts(*old(next_node)),
                value,
            ));
            assert(subtree_counts(*next_node).dom() =~= subtree_counts(
                *old(next_node),
            ).dom().insert(value));
        }
    }

    /// Inserts `value`: a node already holding it has its count raised by
    /// one; otherwise a new node with count one appears at the ordered spot.
    pub fn insert_node(&mut self, value: u64)
        requires
            old(self).ordered(),
            old(self).counts().dom().contains(value) ==> old(self).counts()[value] < usize::MAX,
        ensures
            final(self).ordered(),
            final(self).counts() == counts_bumped(old(self).counts(), value),
            final(self).counts().dom() == old(self).counts().dom().insert(value),
        decreases *old(self),
    {
        proof {
            assert(!subtree_counts(self.left).dom().contains(self.value));
            assert(!subtree_counts(self.right).dom().contains(self.value));
        }
        if value == self.value {
            self.count = self.count + 1;
        } else if value > self.value {
            Self::next_node_or_create(&mut self.right, value);
        } else {
            Self::next_node_or_create(&mut self.left, value);
        }
        proof {
            assert(self.counts() =~= counts_bumped(old(self).counts(), value));
            assert(self.counts().dom() =~= old(self).counts().dom().insert(value));
        }
    }

    /// The distinct values in ascending order, one entry per node.
    spec fn inorder_asc(self) -> Seq<u64>
        decreases self,
    {
        opt_inorder_asc(self.left) + seq![self.value] + opt_inorder_asc(self.right)
    }

    /// The distinct values in descending order, one entry per node.
    spec fn inorder_desc(self) -> Seq<u64>
        decreases self,
    {
        opt_inorder_desc(self.right) + seq![self.value] + opt_inorder_desc(self.left)
    }

    /// The distinct values, smallest first.
    pub fn to_vec_ascending(&self) -> (r: Vec<u64>)
        requires
            self.ordered(),
        ensures
            forall|x: u64| r@.contains(x) <==> self.counts().dom().contains(x),
            forall|a: int, b: int| 0 <= a < b < r@.len() ==> r@[a] < r@[b],
    {
        let mut output: Vec<u64> = Vec::new();
        traverse(self, &mut output, &TraverseMode::Ascending);
        proof {
            lemma_inorder_asc_props(*self);
            assert(output@ =~= self.inorder_asc());
        }
        output
    }

    /// The distinct values, largest first.
    pub fn to_vec_descending(&self) -> (r: Vec<u64>)
        requires
            self.ordered(),
        ensures
            forall|x: u64| r@.contains(x) <==> self.counts().dom().contains(x),
            forall|a: int, b: int| 0 <= a < b < r@.len() ==> r@[a] > r@[b],
    {
        let mut output: Vec<u64> = Vec::new();
        traverse(self, &mut output, &TraverseMode::Descending);
        proof {
            lemma_inorder_desc_props(*self);
            assert(output@ =~= self.inorder_desc());
        }
        output
    }

    /// How many times `value` was inserted, or `None` when it never was.
    pub fn get_value_count(&self, value: u64) -> (r: Option<usize>)
        requires
            self.ordered(),
        ensures
            match r {
                Some(c) => self.counts().dom().contains(value) && c as nat == self.counts()[value],
                None => !self.counts().dom().contains(value),
            },
        decreases *self,
    {
        if value == self.value {
            proof {
                assert(!subtree_counts(self.left).dom().contains(value));
                assert(!subtree_counts(self.right).dom().contains(value));
            }
            Some(self.count)
        } else if value > self.value {
            proof {
                assert(!subtree_counts(self.left).dom().contains(value));
            }
            match &self.right {
                Some(node) => node.get_value_count(value),
                None => None,
            }
        } else {
            proof {
                assert(!subtree_counts(self.right).dom().contains(value));
            }
            match &self.left {
                Some(node) => node.get_value_count(value),
                None => None,
            }
        }
    }
}

/// `inorder_asc` of an optional subtree.
spec fn opt_inorder_asc(o: Option<Box<BinaryTree>>) -> Seq<u64>
    decreases o,
{
    match o {
        Some(node) => node.inorder_asc(),
        None => Seq::empty(),
    }
}

/// `inorder_desc` of an optional subtree.
spec fn opt_inorder_desc(o: Option<Box<BinaryTree>>) -> Seq<u64>
    decreases o,
{
    match o {
        Some(node) => node.inorder_desc(),
        None => Seq::empty(),
    }
}

/// In an ordered tree, the ascending walk lists exactly the stored values,
/// in strictly increasing order.
proof fn lemma_inorder_asc_props(t: BinaryTree)
    requires
        t.ordered(),
    ensures
        forall|x: u64| t.inorder_asc().contains(x) <==> t.counts().dom().contains(x),
        forall|a: int, b: int|
            0 <= a < b < t.inorder_asc().len() ==> t.inorder_asc()[a] < t.inorder_asc()[b],
    decreases t,
{
    let s = t.inorder_asc();
    let lseq = opt_inorder_asc(t.left);
    let rseq = opt_inorder_asc(t.right);
    let ll = lseq.len() as int;
    match t.left {
        Some(l) => {
            lemma_inorder_asc_props(*l);
            assert(lseq == l.inorder_asc());
            assert(subtree_counts(t.left) == l.counts());
        },
        None => {
            assert(lseq =~= Seq::<u64>::empty());
            assert(subtree_counts(t.left) =~= Map::<u64, nat>::empty());
        },
    }
    match t.right {
        Some(r) => {
            lemma_inorder_asc_props(*r);
            assert(rseq == r.inorder_asc());
            assert(subtree_counts(t.right) == r.counts());
        },
        None => {
            assert(rseq =~= Seq::<u64>::empty());
            assert(subtree_counts(t.right) =~= Map::<u64, nat>::empty());
        },
    }
    assert(t.counts().dom() =~= subtree_counts(t.left).dom().union(
        subtree_counts(t.right).dom(),
    ).insert(t.value));
    assert(s.len() == ll + 1 + rseq.len());
    assert forall|x: u64| s.contains(x) <==> t.counts().dom().contains(x) by {
        if s.contains(x) {
            let i = choose|i: int| 0 <= i < s.len() && s[i] == x;
            if i < ll {
                assert(lseq[i] == x);
                assert(lseq.contains(x));
            } else if i > ll {
                assert(rseq[i - ll - 1] == x);
                assert(rseq.contains(x));
            } else {
                assert(x == t.value);
            }
        }
        if t.counts().dom().contains(x) {
            if subtree_counts(t.left).dom().contains(x) {
                assert(lseq.contains(x));
                let i = choose|i: int| 0 <= i < lseq.len() && lseq[i] == x;
                assert(s[i] == x);
            } else if subtree_counts(t.right).dom().contains(x) {
                assert(rseq.contains(x));
                let i = choose|i: int| 0 <= i < rseq.len() && rseq[i] == x;
                assert(s[ll + 1 + i] == x);
            } else {
                assert(x == t.value);
                assert(s[ll] == x);
            }
        }
    }
    assert forall|a: int, b: int| 0 <= a < b < s.len() implies s[a] < s[b] by {
        if a < ll {
            assert(s[a] == lseq[a]);
            assert(lseq.contains(lseq[a]));
            assert(subtree_counts(t.left).dom().contains(s[a]));
            assert(s[a] < t.value);
        }
        if b > ll {
            assert(s[b] == rseq[b - ll - 1]);
            assert(rseq.contains(rseq[b - ll - 1]));
            assert(subtree_counts(t.right).dom().contains(s[b]));
            assert(s[b] > t.value);
        }
        if a == ll {
            assert(s[a] == t.value);
        }
        if b == ll {
            assert(s[b] == t.value);
        }
    }
}

/// In an ordered tree, the descending walk lists exactly the stored values,
/// in strictly decreasing order.
proof fn lemma_inorder_desc_props(t: BinaryTree)
    requires
        t.ordered(),
    ensures
        forall|x: u64| t.inorder_desc().contains(x) <==> t.counts().dom().contains(x),
        forall|a: int, b: int|
            0 <= a < b < t.inorder_desc().len() ==> t.inorder_desc()[a] > t.inorder_desc()[b],
    decreases t,
{
    let s = t.inorder_desc();
    let lseq = opt_inorder_desc(t.right);
    let rseq = opt_inorder_desc(t.left);
    let ll = lseq.len() as int;
    match t.right {
        Some(r) => {
            lemma_inorder_desc_props(*r);
            assert(lseq == r.inorder_desc());
            assert(subtree_counts(t.right) == r.counts());
        },
        None => {
            assert(lseq =~= Seq::<u64>::empty());
            assert(subtree_counts(t.right) =~= Map::<u64, nat>::empty());
        },
    }
    match t.left {
        Some(l) => {
            lemma_inorder_desc_props(*l);
            assert(rseq == l.inorder_desc());
            assert(subtree_counts(t.left) == l.counts());
        },
        None => {
            assert(rseq =~= Seq::<u64>::empty());
            assert(subtree_counts(t.left) =~= Map::<u64, nat>::empty());
        },
    }
    assert(t.counts().dom() =~= subtree_counts(t.left).dom().union(
        subtree_counts(t.right).dom(),
    ).insert(t.value));
    assert(s.len() == ll + 1 + rseq.len());
    assert forall|x: u64| s.contains(x) <==> t.counts().dom().contains(x) by {
        if s.contains(x) {
            let i = choose|i: int| 0 <= i < s.len() && s[i] == x;
            if i < ll {
                assert(lseq[i] == x);
                assert(lseq.contains(x));
            } else if i > ll {
                assert(rseq[i - ll - 1] == x);
                assert(rseq.contains(x));
            } else {
                assert(x == t.value);
            }
        }
        if t.counts().dom().contains(x) {
            if subtree_counts(t.right).dom().contains(x) {
                assert(lseq.contains(x));
                let i = choose|i: int| 0 <= i < lseq.len() && lseq[i] == x;
                assert(s[i] == x);
            } else if subtree_counts(t.left).dom().contains(x) {
                assert(rseq.contains(x));
                let i = choose|i: int| 0 <= i < rseq.len() && rseq[i] == x;
                assert(s[ll + 1 + i] == x);
            } else {
                assert(x == t.value);
                assert(s[ll] == x);
            }
        }
    }
    assert forall|a: int, b: int| 0 <= a < b < s.len() implies s[a] > s[b] by {
        if a < ll {
            assert(s[a] == lseq[a]);
            assert(lseq.contains(lseq[a]));
            assert(subtree_counts(t.right).dom().contains(s[a]));
            assert(s[a] > t.value);
        }
        if b > ll {
            assert(s[b] == rseq[b - ll - 1]);
            assert(rseq.contains(rseq[b - ll - 1]));
            assert(subtree_counts(t.left).dom().contains(s[b]));
            assert(s[b] < t.value);
        }
        if a == ll {
            assert(s[a] == t.value);
        }
        if b == ll {
            assert(s[b] == t.value);
        }
    }
}

/// Walks the tree in order, appending each node's value to `out`: ascending
/// mode visits left child, node, right child; descending mode the mirror.
fn traverse(node: &BinaryTree, out: &mut Vec<u64>, mode: &TraverseMode)
    ensures
        match mode {
            TraverseMode::Ascending => final(out)@ == old(out)@ + node.inorder_asc(),
            TraverseMode::Descending => final(out)@ == old(out)@ + node.inorder_desc(),
        },
    decreases *node,
{
    match mode {
        TraverseMode::Ascending => {
            match &node.left {
                Some(l) => traverse(&**l, out, mode),
                None => {},
            }
            out.push(node.value);
            match &node.right {
                Some(r) => traverse(&**r, out, mode),
                None => {},
            }
            proof {
                assert(out@ =~= old(out)@ + node.inorder_asc());
            }
        },
        TraverseMode::Descending => {
            match &node.right {
                Some(r) => traverse(&**r, out, mode),
                None => {},
            }
            out.push(node.value);
            match &node.left {
                Some(l) => traverse(&**l, out, mode),
                None => {},
            }
            proof {
                assert(out@ =~= old(out)@ + node.inorder_desc());
            }
        },
    }
}

} // verus!
