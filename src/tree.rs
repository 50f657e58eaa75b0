//! The tree: construction and insertion with node splitting.
use vstd::prelude::*;
use crate::locator::{binary_search, strictly_ascending};
use crate::node::{
    BNode, child_lo, child_hi, neg_inf, pos_inf, lemma_keys_insert, lemma_child_replaced,
    lemma_child_split, lemma_split, lemma_height, lemma_new_root, lemma_inorder, lemma_leaves_at,
};

verus! {

/// Why a tree could not be built.
#[derive(Debug, PartialEq, Eq, Structural)]
pub enum BTreeError {
    /// The minimum degree is below 2, too small for nodes to split.
    InvalidConfiguration,
}

/// A B-tree of minimum degree `order`: every node holds at most
/// `2 * order - 1` keys, every node but the root at least `order - 1`.
/// Keys are kept once each: inserting a key that is already held changes
/// nothing.
pub struct BTree {
    pub root: Option<BNode>,
    pub order: usize,
}

/// What inserting `k` into the subtree `pre`, well formed between `lo` and
/// `hi` with its leaves `d` levels down, leaves behind in `post` and returns
/// in `r`: either `post` holds the keys of `pre` and `k` within the same
/// bounds, or `post`, the returned median and the returned sibling together
/// hold them, `post` below the median and the sibling above it, each
/// well formed with its leaves `d` levels down.
pub open spec fn insert_outcome(
    pre: BNode,
    post: BNode,
    k: i32,
    order: nat,
    r: Option<(i32, Box<BNode>)>,
    lo: int,
    hi: int,
    d: nat,
) -> bool {
    match r {
        None => {
            &&& post.wf(lo, hi, d, order)
            &&& post.contents() == pre.contents().insert(k)
            &&& post.keys@.len() >= pre.keys@.len()
        },
        Some((m, sib)) => {
            &&& lo < m < hi
            &&& post.wf(lo, m as int, d, order)
            &&& sib.wf(m as int, hi, d, order)
            &&& post.keys@.len() == order
            &&& sib.keys@.len() == order - 1
            &&& post.contents().insert(m).union(sib.contents()) == pre.contents().insert(k)
        },
    }
}

impl BTree {
    /// The tree is well formed: its order is at least 2 and its root, if
    /// any, holds a key and is a well-formed subtree over the whole key
    /// range whose leaves all lie at the root's height.
    pub open spec fn wf(self) -> bool {
        &&& self.order >= 2
        &&& match self.root {
            None => true,
            Some(r) => {
                &&& r.wf(neg_inf(), pos_inf(), r.height(), self.order as nat)
                &&& r.keys@.len() >= 1
            },
        }
    }

    /// The number of levels: 0 for an empty tree, 1 for a single leaf.
    pub open spec fn height(self) -> nat {
        match self.root {
            None => 0,
            Some(r) => r.height() + 1,
        }
    }

    /// The set of keys held in the tree.
    pub open spec fn contents(self) -> Set<i32> {
        match self.root {
            None => Set::empty(),
            Some(r) => r.contents(),
        }
    }

    /// The keys of the tree as an in-order walk gives them.
    pub open spec fn inorder(self) -> Seq<i32> {
        match self.root {
            None => Seq::empty(),
            Some(r) => r.inorder(),
        }
    }

    /// An empty tree of minimum degree `order`; an order below 2 is refused.
    pub fn new(order: usize) -> (r: Result<BTree, BTreeError>)
        ensures
            order < 2 <==> r is Err,
            r matches Err(e) ==> e == BTreeError::InvalidConfiguration,
            r matches Ok(t) ==> t.wf() && t.order == order && t.root is None,
    {
        if order < 2 {
            Err(BTreeError::InvalidConfiguration)
        } else {
            Ok(BTree { root: None, order })
        }
    }

    /// Inserts `nkey` into the tree. The first key makes a leaf root; after
    /// that the key goes down from the root, and where the root itself
    /// splits, a new root holding the median over the two halves makes the
    /// tree one level taller. A key that is already held changes nothing.
    pub fn insert(&mut self, nkey: i32)
        requires
            old(self).wf(),
        ensures
            final(self).wf(),
            final(self).order == old(self).order,
            final(self).contents() == old(self).contents().insert(nkey),
            old(self).root is None ==> (final(self).root matches Some(r) && r.keys@ == seq![nkey]
                && r.children@.len() == 0),
            old(self).root is None ==> final(self).height() == 1,
            old(self).root matches Some(r) ==> final(self).height() == if r.splits(
                nkey,
                old(self).order as nat,
            ) {
                old(self).height() + 1
            } else {
                old(self).height()
            },
    {
        let ghost o = self.order as nat;
        match self.root.take() {
            None => {
                let mut keys: Vec<i32> = Vec::new();
                keys.push(nkey);
                let leaf = BNode::new_fill(keys, Vec::new());
                proof {
                    assert(leaf.keys@ == seq![nkey]);
                    assert(leaf.keys@.to_set() =~= Set::empty().insert(nkey)) by {
                        assert(leaf.keys@[0] == nkey);
                    }
                    assert(leaf.contents() =~= Set::empty().insert(nkey));
                }
                self.root = Some(leaf);
            },
            Some(mut root) => {
                let ghost pre = root;
                let ghost d = root.height();
                proof {
                    assert(root.wf(neg_inf(), pos_inf(), d, o) && neg_inf() < nkey < pos_inf());
                }
                let res = BTree::_insert(&mut root, nkey, self.order);
                proof {
                    assert(insert_outcome(pre, root, nkey, o, res, neg_inf(), pos_inf(), d));
                }
                match res {
                    None => {
                        proof {
                            lemma_height(root, neg_inf(), pos_inf(), d, o);
                        }
                        self.root = Some(root);
                    },
                    Some((median, sib)) => {
                        let mut keys: Vec<i32> = Vec::new();
                        keys.push(median);
                        let mut children: Vec<BNode> = Vec::new();
                        children.push(root);
                        children.push(*sib);
                        let new_root = BNode::new_fill(keys, children);
                        proof {
                            assert(new_root.keys@ =~= seq![median]);
                            assert(new_root.children@ =~= seq![root, *sib]);
                            lemma_new_root(new_root, root, median, *sib, d, o);
                        }
                        self.root = Some(new_root);
                    },
                }
            },
        }
    }

    /// Inserts `nkey` into the subtree `curr` of a tree of minimum degree
    /// `order`, splitting nodes that overflow on the way back up. A leaf
    /// takes the key at its sorted place; an internal node passes it to the
    /// child just left of its first key that is not less than `nkey` and
    /// takes in the median and new sibling of a child that split. A node
    /// that ends up with `2 * order` keys gives up its middle key and the
    /// keys and children after it, which are returned. A key that is
    /// already held changes nothing.
    ///
    /// The node splits exactly when the insertion overflows every node from
    /// it down to the leaf; for all bounds and depth at which `curr` was
    /// well formed, the outcome is `insert_outcome`.
    #[verifier::rlimit(40)]
    pub fn _insert(curr: &mut BNode, nkey: i32, order: usize) -> (r: Option<(i32, Box<BNode>)>)
        requires
            order >= 2,
            exists|lo: int, hi: int, d: nat| old(curr).wf(lo, hi, d, order as nat) && lo < nkey < hi,
        ensures
            r is Some <==> old(curr).splits(nkey, order as nat),
            forall|lo: int, hi: int, d: nat|
                old(curr).wf(lo, hi, d, order as nat) && lo < nkey < hi ==> insert_outcome(
                    *old(curr),
                    *final(curr),
                    nkey,
                    order as nat,
                    r,
                    lo,
                    hi,
                    d,
                ),
        decreases old(curr).height(),
    {
        let ghost pre = *curr;
        let ghost o = order as nat;
        let ghost (glo, ghi, gd) = choose|lo: int, hi: int, d: nat|
            pre.wf(lo, hi, d, o) && lo < nkey < hi;
        proof {
            assert(crate::locator::ascending(pre.keys@)) by {
                assert forall|i: int, j: int| 0 <= i < j < pre.keys@.len() implies pre.keys@[i]
                    <= pre.keys@[j] by {
                    assert(pre.keys@[i] < pre.keys@[j]);
                }
            }
        }
        let pos = binary_search(curr.keys.as_slice(), nkey);
        if pos < curr.keys.len() && curr.keys[pos] == nkey {
            proof {
                assert(pre.keys@.contains(nkey));
                assert(pre.contents().insert(nkey) =~= pre.contents());
            }
            return None;
        }
        proof {
            assert forall|j: int| pos <= j < pre.keys@.len() implies pre.keys@[j] > nkey by {
                if j > pos {
                    assert(pre.keys@[pos as int] < pre.keys@[j]);
                }
            }
            assert(!pre.keys@.contains(nkey));
        }
        if BNode::is_leaf(curr) {
            curr.keys.insert(pos, nkey);
            proof {
                assert forall|lo: int, hi: int, d: nat|
                    pre.wf(lo, hi, d, o) && lo < nkey < hi implies curr.wf_uncapped(lo, hi, d, o)
                    && curr.contents() == pre.contents().insert(nkey) by {
                    lemma_keys_insert(pre.keys@, pos as int, nkey, lo, hi);
                    assert(curr.contents() =~= pre.contents().insert(nkey));
                }
            }
            if curr.keys.len() / 2 < order {
                return None;
            }
            let mid: usize = curr.keys.len() / 2;
            let ghost full = *curr;
            let median = curr.keys.remove(mid);
            let new_keys = curr.keys.split_off(mid);
            let sib = BNode::new_fill(new_keys, Vec::new());
            proof {
                assert(curr.keys@ =~= full.keys@.subrange(0, order as int));
                assert(sib.keys@ =~= full.keys@.subrange(order + 1int, 2 * order as int));
                assert forall|lo: int, hi: int, d: nat|
                    pre.wf(lo, hi, d, o) && lo < nkey < hi implies insert_outcome(
                    pre,
                    *curr,
                    nkey,
                    o,
                    Some((median, Box::new(sib))),
                    lo,
                    hi,
                    d,
                ) by {
                    lemma_split(full, *curr, sib, lo, hi, d, o);
                }
            }
            return Some((median, Box::new(sib)));
        }
        let ci = pos;
        proof {
            lemma_height(pre, glo, ghi, gd, o);
            let c = pre.children@[ci as int];
            assert(c.wf_uncapped(
                child_lo(pre.keys@, glo, ci as int),
                child_hi(pre.keys@, ghi, ci as int),
                (gd - 1) as nat,
                o,
            ));
            lemma_height(
                c,
                child_lo(pre.keys@, glo, ci as int),
                child_hi(pre.keys@, ghi, ci as int),
                (gd - 1) as nat,
                o,
            );
            if ci > 0 {
                assert(pre.keys@[ci - 1] < nkey);
            }
            assert(c.wf(
                child_lo(pre.keys@, glo, ci as int),
                child_hi(pre.keys@, ghi, ci as int),
                (gd - 1) as nat,
                o,
            ) && child_lo(pre.keys@, glo, ci as int) < nkey < child_hi(pre.keys@, ghi, ci as int));
        }
        let res = BTree::_insert(&mut curr.children[ci], nkey, order);
        let ghost c = curr.children@[ci as int];
        proof {
            assert forall|lo: int, hi: int, d: nat| pre.wf(lo, hi, d, o) && lo < nkey < hi implies {
                &&& d > 0
                &&& child_lo(pre.keys@, lo, ci as int) < nkey < child_hi(pre.keys@, hi, ci as int)
                &&& insert_outcome(
                    pre.children@[ci as int],
                    c,
                    nkey,
                    o,
                    res,
                    child_lo(pre.keys@, lo, ci as int),
                    child_hi(pre.keys@, hi, ci as int),
                    (d - 1) as nat,
                )
            } by {
                if ci > 0 {
                    assert(pre.keys@[ci - 1] < nkey);
                }
                assert(pre.children@[ci as int].wf(
                    child_lo(pre.keys@, lo, ci as int),
                    child_hi(pre.keys@, hi, ci as int),
                    (d - 1) as nat,
                    o,
                ));
            }
        }
        match res {
            None => {
                proof {
                    assert forall|lo: int, hi: int, d: nat|
                        pre.wf(lo, hi, d, o) && lo < nkey < hi implies insert_outcome(
                        pre,
                        *curr,
                        nkey,
                        o,
                        None,
                        lo,
                        hi,
                        d,
                    ) by {
                        lemma_child_replaced(pre, *curr, ci as int, c, nkey, lo, hi, d, o);
                    }
                }
                None
            },
            Some((m, sib)) => {
                curr.keys.insert(ci, m);
                assert(ci < curr.children.len());
                curr.children.insert(ci + 1, *sib);
                proof {
                    assert(curr.children@ == pre.children@.update(ci as int, c).insert(
                        ci + 1int,
                        *sib,
                    ));
                    assert forall|lo: int, hi: int, d: nat|
                        pre.wf(lo, hi, d, o) && lo < nkey < hi implies curr.wf_uncapped(lo, hi, d, o)
                        && curr.contents() == pre.contents().insert(nkey) && curr.keys@.len()
                        == pre.keys@.len() + 1 by {
                        lemma_child_split(pre, *curr, ci as int, c, m, *sib, nkey, lo, hi, d, o);
                    }
                }
                if curr.keys.len() / 2 < order {
                    return None;
                }
                let mid: usize = curr.keys.len() / 2;
                let ghost full = *curr;
                let median = curr.keys.remove(mid);
                let new_keys = curr.keys.split_off(mid);
                let new_children = curr.children.split_off(mid + 1);
                let sib2 = BNode::new_fill(new_keys, new_children);
                proof {
                    assert(curr.keys@ =~= full.keys@.subrange(0, order as int));
                    assert(sib2.keys@ =~= full.keys@.subrange(order + 1int, 2 * order as int));
                    assert forall|lo: int, hi: int, d: nat|
                        pre.wf(lo, hi, d, o) && lo < nkey < hi implies insert_outcome(
                        pre,
                        *curr,
                        nkey,
                        o,
                        Some((median, Box::new(sib2))),
                        lo,
                        hi,
                        d,
                    ) by {
                        lemma_split(full, *curr, sib2, lo, hi, d, o);
                    }
                }
                Some((median, Box::new(sib2)))
            },
        }
    }
}

impl BTree {
    /// A tree of minimum degree `order` holding the keys of `keys`, inserted
    /// in turn; an order below 2 is refused.
    pub fn from_keys(order: usize, keys: &Vec<i32>) -> (r: Result<BTree, BTreeError>)
        ensures
            order < 2 <==> r is Err,
            r matches Err(e) ==> e == BTreeError::InvalidConfiguration,
            r matches Ok(t) ==> t.wf() && t.order == order && t.contents() == keys@.to_set(),
    {
        let mut t = match BTree::new(order) {
            Ok(t) => t,
            Err(e) => {
                return Err(e);
            },
        };
        let mut i: usize = 0;
        while i < keys.len()
            invariant
                t.wf(),
                t.order == order,
                i <= keys@.len(),
                t.contents() == keys@.subrange(0, i as int).to_set(),
            decreases keys@.len() - i,
        {
            t.insert(keys[i]);
            proof {
                assert(keys@.subrange(0, i + 1int) =~= keys@.subrange(0, i as int) + seq![keys@[i as int]]);
                Seq::<i32>::lemma_to_set_insert_commutes(keys@.subrange(0, i as int), keys@[i as int]);
            }
            i = i + 1;
        }
        assert(keys@.subrange(0, i as int) =~= keys@);
        Ok(t)
    }
}

/// The in-order walk of a well-formed tree ascends strictly, and the keys it
/// meets are exactly the keys the tree holds.
pub proof fn lemma_inorder_sorted_complete(t: BTree)
    requires
        t.wf(),
    ensures
        strictly_ascending(t.inorder()),
        t.inorder().to_set() == t.contents(),
{
    if let Some(r) = t.root {
        lemma_inorder(r, neg_inf(), pos_inf(), r.height(), t.order as nat);
    }
}

/// All leaves of a well-formed, non-empty tree lie at the same depth, one
/// less than its height.
pub proof fn lemma_balanced(t: BTree)
    requires
        t.wf(),
    ensures
        t.root matches Some(r) ==> r.leaves_at((t.height() - 1) as nat),
{
    if let Some(r) = t.root {
        lemma_leaves_at(r, neg_inf(), pos_inf(), r.height(), t.order as nat);
    }
}

} // verus!
