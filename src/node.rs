//! The B-tree node and its mathematical model.
use vstd::prelude::*;
use crate::locator::{strictly_ascending, lower_bound};

verus! {

/// Below every `i32`: the lower bound of the whole key range.
pub open spec fn neg_inf() -> int {
    i32::MIN - 1
}

/// Above every `i32`: the upper bound of the whole key range.
pub open spec fn pos_inf() -> int {
    i32::MAX + 1
}

/// A node of the tree: ascending keys and, for an internal node, one child
/// more than keys. A leaf has no children.
pub struct BNode {
    pub keys: Vec<i32>,
    pub children: Vec<BNode>,
}

/// Exclusive lower bound of the keys under child `i` of a node with keys `ks`
/// whose own keys lie above `lo`.
pub open spec fn child_lo(ks: Seq<i32>, lo: int, i: int) -> int {
    if i == 0 { lo } else { ks[i - 1] as int }
}

/// Exclusive upper bound of the keys under child `i` of a node with keys `ks`
/// whose own keys lie below `hi`.
pub open spec fn child_hi(ks: Seq<i32>, hi: int, i: int) -> int {
    if i == ks.len() { hi } else { ks[i] as int }
}

/// Every key of `ks` lies strictly between `lo` and `hi`, in strictly
/// ascending order.
pub open spec fn keys_between(ks: Seq<i32>, lo: int, hi: int) -> bool {
    &&& strictly_ascending(ks)
    &&& forall|i: int| 0 <= i < ks.len() ==> lo < #[trigger] ks[i] < hi
}

/// The union of the keys held in the subtrees `cs`.
pub open spec fn children_contents(cs: Seq<BNode>) -> Set<i32>
    decreases cs,
{
    if cs.len() == 0 {
        Set::empty()
    } else {
        children_contents(cs.drop_last()).union(cs.last().contents())
    }
}

/// The in-order walk of the subtrees `cs` separated by the keys `ks`
/// (`cs.len() == ks.len() + 1`).
pub open spec fn interleave(cs: Seq<BNode>, ks: Seq<i32>) -> Seq<i32>
    decreases cs,
{
    if cs.len() <= 1 || ks.len() == 0 {
        if cs.len() == 0 { Seq::empty() } else { cs[0].inorder() }
    } else {
        interleave(cs.drop_last(), ks.drop_last()).push(ks.last()) + cs.last().inorder()
    }
}

impl BNode {
    /// The set of keys held in this subtree.
    pub open spec fn contents(self) -> Set<i32>
        decreases self,
    {
        self.keys@.to_set().union(children_contents(self.children@))
    }

    /// The keys of this subtree as an in-order walk gives them.
    pub open spec fn inorder(self) -> Seq<i32>
        decreases self,
    {
        if self.children@.len() == 0 {
            self.keys@
        } else {
            interleave(self.children@, self.keys@)
        }
    }

    /// The number of edges from this node down to its leftmost leaf.
    pub open spec fn height(self) -> nat
        decreases self,
    {
        if self.children@.len() == 0 {
            0
        } else {
            1 + self.children@[0].height()
        }
    }

    /// Every leaf of this subtree lies exactly `d` levels below it.
    pub open spec fn leaves_at(self, d: nat) -> bool
        decreases self,
    {
        if self.children@.len() == 0 {
            d == 0
        } else {
            &&& d > 0
            &&& forall|i: int|
                0 <= i < self.children@.len() ==> (#[trigger] self.children@[i]).leaves_at(
                    (d - 1) as nat,
                )
        }
    }

    /// Every condition of `wf` but the bound on this node's own key count:
    /// keys ascend and lie strictly between `lo` and `hi`; all leaves lie
    /// exactly `d` levels below; a leaf has no children; an internal node has
    /// one child more than keys, each child holds between `order - 1` and
    /// `2 * order - 1` keys, and the keys under child `i` lie between keys
    /// `i - 1` and `i`.
    pub open spec fn wf_uncapped(self, lo: int, hi: int, d: nat, order: nat) -> bool
        decreases self,
    {
        &&& keys_between(self.keys@, lo, hi)
        &&& if d == 0 {
            self.children@.len() == 0
        } else {
            &&& self.children@.len() == self.keys@.len() + 1
            &&& forall|i: int|
                0 <= i < self.children@.len() ==> {
                    &&& (#[trigger] self.children@[i]).wf_uncapped(
                        child_lo(self.keys@, lo, i),
                        child_hi(self.keys@, hi, i),
                        (d - 1) as nat,
                        order,
                    )
                    &&& order - 1 <= self.children@[i].keys@.len() <= 2 * order - 1
                }
        }
    }

    /// This subtree is a well-formed B-tree of minimum degree `order` whose
    /// keys lie strictly between `lo` and `hi` and whose leaves all lie
    /// exactly `d` levels below it; no node in it holds more than
    /// `2 * order - 1` keys.
    pub open spec fn wf(self, lo: int, hi: int, d: nat, order: nat) -> bool {
        &&& self.wf_uncapped(lo, hi, d, order)
        &&& self.keys@.len() <= 2 * order - 1
    }

    /// Inserting `k` overflows this node and, through the child it descends
    /// into, every node down to the leaf: the insertion ends by splitting this
    /// node.
    pub open spec fn splits(self, k: i32, order: nat) -> bool
        decreases self,
    {
        &&& !self.keys@.contains(k)
        &&& self.keys@.len() == 2 * order - 1
        &&& (self.children@.len() == 0 || {
            let i = lower_bound(self.keys@, k);
            0 <= i < self.children@.len() && self.children@[i].splits(k, order)
        })
    }

    /// Whether `node` is a leaf, i.e. has no children.
    pub fn is_leaf(node: &BNode) -> (r: bool)
        ensures
            r == (node.children@.len() == 0),
    {
        node.children.is_empty()
    }

    /// An empty leaf.
    pub fn new() -> (r: BNode)
        ensures
            r.keys@.len() == 0,
            r.children@.len() == 0,
    {
        BNode { keys: Vec::new(), children: Vec::new() }
    }

    /// A node holding exactly the given keys and children.
    pub fn new_fill(keys: Vec<i32>, children: Vec<BNode>) -> (r: BNode)
        ensures
            r.keys@ == keys@,
            r.children@ == children@,
    {
        BNode { keys, children }
    }
}

/// Inserting `k` at `pos`, where it falls between its neighbours, keeps the
/// keys ascending within the bounds and adds `k` to their set.
pub proof fn lemma_keys_insert(ks: Seq<i32>, pos: int, k: i32, lo: int, hi: int)
    requires
        keys_between(ks, lo, hi),
        lo < k < hi,
        0 <= pos <= ks.len(),
        forall|j: int| 0 <= j < pos ==> ks[j] < k,
        forall|j: int| pos <= j < ks.len() ==> ks[j] > k,
    ensures
        keys_between(ks.insert(pos, k), lo, hi),
        ks.insert(pos, k).to_set() == ks.to_set().insert(k),
{
    broadcast use vstd::seq_lib::group_seq_properties;

    let t = ks.insert(pos, k);
    ks.insert_ensures(pos, k);
    assert forall|i: int, j: int| 0 <= i < j < t.len() implies t[i] < t[j] by {
        if j < pos {
        } else if j == pos {
        } else if i < pos {
            assert(t[j] == ks[j - 1]);
        } else if i == pos {
            assert(t[j] == ks[j - 1]);
        } else {
            assert(t[i] == ks[i - 1] && t[j] == ks[j - 1]);
        }
    }
    assert forall|i: int| 0 <= i < t.len() implies lo < #[trigger] t[i] < hi by {
        if i > pos {
            assert(t[i] == ks[i - 1]);
        }
    }
    assert(t =~= ks.subrange(0, pos).push(k) + ks.subrange(pos, ks.len() as int));
    assert(ks =~= ks.subrange(0, pos) + ks.subrange(pos, ks.len() as int));
    assert(t.to_set() =~= ks.to_set().insert(k));
}

/// Taking key `mid` out of ascending keys leaves two ascending halves, one
/// on each side of it.
pub proof fn lemma_keys_split(ks: Seq<i32>, mid: int, lo: int, hi: int)
    requires
        keys_between(ks, lo, hi),
        0 <= mid < ks.len(),
    ensures
        lo < ks[mid] < hi,
        keys_between(ks.subrange(0, mid), lo, ks[mid] as int),
        keys_between(ks.subrange(mid + 1, ks.len() as int), ks[mid] as int, hi),
        ks.to_set() == ks.subrange(0, mid).to_set().insert(ks[mid]).union(
            ks.subrange(mid + 1, ks.len() as int).to_set(),
        ),
{
    broadcast use vstd::seq_lib::group_seq_properties;

    let a = ks.subrange(0, mid);
    let b = ks.subrange(mid + 1, ks.len() as int);
    assert forall|i: int| 0 <= i < a.len() implies lo < #[trigger] a[i] < ks[mid] by {
        assert(a[i] == ks[i]);
    }
    assert forall|i: int| 0 <= i < b.len() implies ks[mid] < #[trigger] b[i] < hi by {
        assert(b[i] == ks[mid + 1 + i]);
    }
    assert(ks =~= a.push(ks[mid]) + b);
    assert(ks.to_set() =~= a.to_set().insert(ks[mid]).union(b.to_set()));
}

/// Appending a subtree adds its keys.
pub proof fn lemma_children_contents_push(cs: Seq<BNode>, c: BNode)
    ensures
        children_contents(cs.push(c)) == children_contents(cs).union(c.contents()),
{
    assert(cs.push(c).drop_last() =~= cs);
}

/// The keys of a concatenation of subtrees are those of its two parts.
pub proof fn lemma_children_contents_concat(a: Seq<BNode>, b: Seq<BNode>)
    ensures
        children_contents(a + b) == children_contents(a).union(children_contents(b)),
    decreases b.len(),
{
    if b.len() == 0 {
        assert(a + b =~= a);
        assert(children_contents(a).union(children_contents(b)) =~= children_contents(a));
    } else {
        lemma_children_contents_concat(a, b.drop_last());
        assert((a + b).drop_last() =~= a + b.drop_last());
        assert((a + b).last() == b.last());
        assert(children_contents(a + b) =~= children_contents(a).union(children_contents(b)));
    }
}

/// The keys of a sequence of subtrees, seen around its `i`th element.
pub proof fn lemma_children_contents_at(cs: Seq<BNode>, i: int)
    requires
        0 <= i < cs.len(),
    ensures
        children_contents(cs) == children_contents(cs.subrange(0, i)).union(
            cs[i].contents(),
        ).union(children_contents(cs.subrange(i + 1, cs.len() as int))),
{
    let a = cs.subrange(0, i);
    let b = cs.subrange(i + 1, cs.len() as int);
    assert(cs =~= a.push(cs[i]) + b);
    lemma_children_contents_concat(a.push(cs[i]), b);
    lemma_children_contents_push(a, cs[i]);
}

/// A child that took in `k` without splitting leaves its parent well formed
/// with `k` added.
pub proof fn lemma_child_replaced(
    pre: BNode,
    n: BNode,
    ci: int,
    c: BNode,
    k: i32,
    lo: int,
    hi: int,
    d: nat,
    order: nat,
)
    requires
        pre.wf(lo, hi, d, order),
        d > 0,
        0 <= ci < pre.children@.len(),
        n.keys@ == pre.keys@,
        n.children@ == pre.children@.update(ci, c),
        c.wf(child_lo(pre.keys@, lo, ci), child_hi(pre.keys@, hi, ci), (d - 1) as nat, order),
        c.contents() == pre.children@[ci].contents().insert(k),
        c.keys@.len() >= pre.children@[ci].keys@.len(),
    ensures
        n.wf(lo, hi, d, order),
        n.contents() == pre.contents().insert(k),
{
    let cs = pre.children@;
    assert forall|i: int| 0 <= i < n.children@.len() implies {
        &&& (#[trigger] n.children@[i]).wf_uncapped(
            child_lo(n.keys@, lo, i),
            child_hi(n.keys@, hi, i),
            (d - 1) as nat,
            order,
        )
        &&& order - 1 <= n.children@[i].keys@.len() <= 2 * order - 1
    } by {
        if i != ci {
            assert(n.children@[i] == cs[i]);
        }
    }
    lemma_children_contents_at(cs, ci);
    lemma_children_contents_at(n.children@, ci);
    assert(n.children@.subrange(0, ci) =~= cs.subrange(0, ci));
    assert(n.children@.subrange(ci + 1, cs.len() as int) =~= cs.subrange(ci + 1, cs.len() as int));
    assert(n.contents() =~= pre.contents().insert(k));
}

/// A child that split while taking in `k`, its median and new sibling put
/// into the parent right after it, leaves the parent well formed but for its
/// own key count, which grows by one, and with `k` added.
pub proof fn lemma_child_split(
    pre: BNode,
    n: BNode,
    ci: int,
    c: BNode,
    m: i32,
    sib: BNode,
    k: i32,
    lo: int,
    hi: int,
    d: nat,
    order: nat,
)
    requires
        pre.wf(lo, hi, d, order),
        d > 0,
        order >= 2,
        0 <= ci < pre.children@.len(),
        child_lo(pre.keys@, lo, ci) < m < child_hi(pre.keys@, hi, ci),
        c.wf(child_lo(pre.keys@, lo, ci), m as int, (d - 1) as nat, order),
        sib.wf(m as int, child_hi(pre.keys@, hi, ci), (d - 1) as nat, order),
        c.keys@.len() == order,
        sib.keys@.len() == order - 1,
        c.contents().insert(m).union(sib.contents()) == pre.children@[ci].contents().insert(k),
        n.keys@ == pre.keys@.insert(ci, m),
        n.children@ == pre.children@.update(ci, c).insert(ci + 1, sib),
    ensures
        n.wf_uncapped(lo, hi, d, order),
        n.contents() == pre.contents().insert(k),
        n.keys@.len() == pre.keys@.len() + 1,
{
    let ks = pre.keys@;
    let cs = pre.children@;
    assert forall|j: int| 0 <= j < ci implies ks[j] < m by {
        if j < ci - 1 {
            assert(ks[j] < ks[ci - 1]);
        }
    }
    assert forall|j: int| ci <= j < ks.len() implies ks[j] > m by {
        if j > ci {
            assert(ks[ci] < ks[j]);
        }
    }
    lemma_keys_insert(ks, ci, m, lo, hi);
    ks.insert_ensures(ci, m);
    cs.update(ci, c).insert_ensures(ci + 1, sib);
    assert forall|i: int| 0 <= i < n.children@.len() implies {
        &&& (#[trigger] n.children@[i]).wf_uncapped(
            child_lo(n.keys@, lo, i),
            child_hi(n.keys@, hi, i),
            (d - 1) as nat,
            order,
        )
        &&& order - 1 <= n.children@[i].keys@.len() <= 2 * order - 1
    } by {
        if i < ci {
            assert(n.children@[i] == cs[i]);
        } else if i == ci {
        } else if i == ci + 1 {
        } else {
            assert(n.children@[i] == cs[i - 1]);
        }
    }
    let a = cs.subrange(0, ci);
    let b = cs.subrange(ci + 1, cs.len() as int);
    assert(n.children@ =~= a.push(c).push(sib) + b);
    lemma_children_contents_concat(a.push(c).push(sib), b);
    lemma_children_contents_push(a.push(c), sib);
    lemma_children_contents_push(a, c);
    lemma_children_contents_at(cs, ci);
    assert(children_contents(n.children@) == children_contents(a).union(c.contents()).union(
        sib.contents(),
    ).union(children_contents(b)));
    assert(n.keys@.to_set() == ks.to_set().insert(m));
    assert(n.contents() =~= pre.contents().insert(k)) by {
        assert forall|x: i32| n.contents().contains(x) <==> pre.contents().insert(k).contains(x) by {
            assert(c.contents().insert(m).union(sib.contents()).contains(x)
                <==> cs[ci].contents().insert(k).contains(x));
        }
    }
}

/// An over-full node of `2 * order` keys splits into the keys (and children)
/// before its middle key, that key, and those after: two well-formed nodes of
/// `order` and `order - 1` keys that together hold the same keys.
pub proof fn lemma_split(n: BNode, l: BNode, r: BNode, lo: int, hi: int, d: nat, order: nat)
    requires
        n.wf_uncapped(lo, hi, d, order),
        order >= 2,
        n.keys@.len() == 2 * order,
        l.keys@ == n.keys@.subrange(0, order as int),
        r.keys@ == n.keys@.subrange(order + 1int, 2 * order as int),
        d == 0 ==> l.children@.len() == 0 && r.children@.len() == 0,
        d > 0 ==> l.children@ == n.children@.subrange(0, order + 1int),
        d > 0 ==> r.children@ == n.children@.subrange(order + 1int, 2 * order + 1int),
    ensures
        lo < n.keys@[order as int] < hi,
        l.wf(lo, n.keys@[order as int] as int, d, order),
        r.wf(n.keys@[order as int] as int, hi, d, order),
        l.keys@.len() == order,
        r.keys@.len() == order - 1,
        l.contents().insert(n.keys@[order as int]).union(r.contents()) == n.contents(),
{
    let ks = n.keys@;
    let cs = n.children@;
    let o = order as int;
    let m = ks[o];
    lemma_keys_split(ks, o, lo, hi);
    if d > 0 {
        assert forall|i: int| 0 <= i < l.children@.len() implies {
            &&& (#[trigger] l.children@[i]).wf_uncapped(
                child_lo(l.keys@, lo, i),
                child_hi(l.keys@, m as int, i),
                (d - 1) as nat,
                order,
            )
            &&& order - 1 <= l.children@[i].keys@.len() <= 2 * order - 1
        } by {
            assert(l.children@[i] == cs[i]);
        }
        assert forall|i: int| 0 <= i < r.children@.len() implies {
            &&& (#[trigger] r.children@[i]).wf_uncapped(
                child_lo(r.keys@, m as int, i),
                child_hi(r.keys@, hi, i),
                (d - 1) as nat,
                order,
            )
            &&& order - 1 <= r.children@[i].keys@.len() <= 2 * order - 1
        } by {
            assert(r.children@[i] == cs[o + 1 + i]);
        }
        assert(cs =~= l.children@ + r.children@);
        lemma_children_contents_concat(l.children@, r.children@);
    }
    assert(l.contents().insert(m).union(r.contents()) =~= n.contents());
}

/// A well-formed subtree whose leaves lie `d` levels down has height `d`.
pub proof fn lemma_height(n: BNode, lo: int, hi: int, d: nat, order: nat)
    requires
        n.wf_uncapped(lo, hi, d, order),
    ensures
        n.height() == d,
    decreases d,
{
    if d > 0 {
        let c = n.children@[0];
        assert(c.wf_uncapped(child_lo(n.keys@, lo, 0), child_hi(n.keys@, hi, 0), (d - 1) as nat, order));
        lemma_height(c, child_lo(n.keys@, lo, 0), child_hi(n.keys@, hi, 0), (d - 1) as nat, order);
    }
}

/// A root made of one median key over the two halves of a split is well
/// formed one level higher and holds the keys of both halves and the median.
pub proof fn lemma_new_root(root: BNode, l: BNode, m: i32, r: BNode, d: nat, order: nat)
    requires
        order >= 2,
        root.keys@ == seq![m],
        root.children@ == seq![l, r],
        l.wf(neg_inf(), m as int, d, order),
        r.wf(m as int, pos_inf(), d, order),
        l.keys@.len() == order,
        r.keys@.len() == order - 1,
    ensures
        root.wf(neg_inf(), pos_inf(), d + 1, order),
        root.height() == d + 1,
        root.contents() == l.contents().insert(m).union(r.contents()),
{
    assert(root.children@[0] == l && root.children@[1] == r);
    lemma_height(l, neg_inf(), m as int, d, order);
    assert(root.children@ =~= Seq::<BNode>::empty().push(l).push(r));
    lemma_children_contents_push(Seq::<BNode>::empty().push(l), r);
    lemma_children_contents_push(Seq::<BNode>::empty(), l);
    assert(children_contents(Seq::<BNode>::empty()) == Set::<i32>::empty());
    assert(seq![m].to_set() =~= Set::empty().insert(m)) by {
        assert(seq![m][0] == m);
    }
    assert(root.contents() =~= l.contents().insert(m).union(r.contents()));
}

/// Ascending keys below `x`, then `x`, then ascending keys above it, are
/// ascending together, and hold the keys of the three parts.
pub proof fn lemma_join(a: Seq<i32>, x: i32, b: Seq<i32>, lo: int, hi: int)
    requires
        keys_between(a, lo, x as int),
        keys_between(b, x as int, hi),
        lo < x < hi,
    ensures
        keys_between(a.push(x) + b, lo, hi),
        (a.push(x) + b).to_set() == a.to_set().insert(x).union(b.to_set()),
{
    broadcast use vstd::seq_lib::group_seq_properties;

    let w = a.push(x) + b;
    let na = a.len() as int;
    assert forall|i: int, j: int| 0 <= i < j < w.len() implies w[i] < w[j] by {
        if j < na {
        } else if j == na {
        } else if i < na {
            assert(w[i] < x && x < w[j]);
        } else if i == na {
            assert(x < w[j]);
        } else {
            assert(w[i] == b[i - na - 1] && w[j] == b[j - na - 1]);
        }
    }
    assert forall|i: int| 0 <= i < w.len() implies lo < #[trigger] w[i] < hi by {
        if i < na {
            assert(w[i] == a[i]);
        } else if i > na {
            assert(w[i] == b[i - na - 1]);
        }
    }
    assert(w.to_set() =~= a.to_set().insert(x).union(b.to_set()));
}

/// The in-order walk of a well-formed subtree ascends strictly within its
/// bounds and holds exactly the subtree's keys.
pub proof fn lemma_inorder(n: BNode, lo: int, hi: int, d: nat, order: nat)
    requires
        n.wf_uncapped(lo, hi, d, order),
    ensures
        keys_between(n.inorder(), lo, hi),
        n.inorder().to_set() == n.contents(),
    decreases d, n.keys@.len() + 1,
{
    if d == 0 {
        assert(n.contents() =~= n.keys@.to_set());
    } else {
        let len = n.keys@.len() as int;
        lemma_inorder_prefix(n, lo, hi, d, order, len);
        assert(n.children@.subrange(0, len + 1) =~= n.children@);
        assert(n.keys@.subrange(0, len) =~= n.keys@);
    }
}

/// The in-order walk of the first `j + 1` children of a well-formed internal
/// node, separated by its first `j` keys, ascends strictly below the upper
/// bound of child `j` and holds exactly their keys.
pub proof fn lemma_inorder_prefix(n: BNode, lo: int, hi: int, d: nat, order: nat, j: int)
    requires
        n.wf_uncapped(lo, hi, d, order),
        d > 0,
        0 <= j <= n.keys@.len(),
    ensures
        keys_between(
            interleave(n.children@.subrange(0, j + 1), n.keys@.subrange(0, j)),
            lo,
            child_hi(n.keys@, hi, j),
        ),
        interleave(n.children@.subrange(0, j + 1), n.keys@.subrange(0, j)).to_set()
            == n.keys@.subrange(0, j).to_set().union(
            children_contents(n.children@.subrange(0, j + 1)),
        ),
    decreases d, j,
{
    let ks = n.keys@;
    let cs = n.children@.subrange(0, j + 1);
    let kp = ks.subrange(0, j);
    let c = n.children@[j];
    lemma_inorder(c, child_lo(ks, lo, j), child_hi(ks, hi, j), (d - 1) as nat, order);
    if j == 0 {
        assert(cs.drop_last() =~= Seq::<BNode>::empty());
        assert(kp.to_set() =~= Set::<i32>::empty());
        assert(cs.last() == c);
        assert(children_contents(Seq::<BNode>::empty()) == Set::<i32>::empty());
        assert(children_contents(cs) =~= c.contents());
        assert(interleave(cs, kp).to_set() =~= kp.to_set().union(children_contents(cs)));
    } else {
        lemma_inorder_prefix(n, lo, hi, d, order, j - 1);
        assert(cs.drop_last() =~= n.children@.subrange(0, j));
        assert(kp.drop_last() =~= ks.subrange(0, j - 1));
        let w = interleave(n.children@.subrange(0, j), ks.subrange(0, j - 1));
        assert(interleave(cs, kp) == w.push(ks[j - 1]) + c.inorder());
        assert(child_hi(ks, hi, j - 1) == ks[j - 1]);
        assert(ks[j - 1] < child_hi(ks, hi, j)) by {
            if j < ks.len() {
                assert(ks[j - 1] < ks[j]);
            }
        }
        lemma_join(w, ks[j - 1], c.inorder(), lo, child_hi(ks, hi, j));
        assert(kp =~= ks.subrange(0, j - 1).push(ks[j - 1]));
        assert(kp.to_set() =~= ks.subrange(0, j - 1).to_set().insert(ks[j - 1])) by {
            broadcast use vstd::seq_lib::group_seq_properties;
        }
        assert(interleave(cs, kp).to_set() =~= kp.to_set().union(children_contents(cs)));
    }
}

/// In a well-formed subtree whose leaves are said to lie `d` levels down,
/// they do.
pub proof fn lemma_leaves_at(n: BNode, lo: int, hi: int, d: nat, order: nat)
    requires
        n.wf_uncapped(lo, hi, d, order),
    ensures
        n.leaves_at(d),
    decreases d,
{
    if d > 0 {
        assert forall|i: int| 0 <= i < n.children@.len() implies (#[trigger] n.children@[i]).leaves_at(
            (d - 1) as nat,
        ) by {
            lemma_leaves_at(
                n.children@[i],
                child_lo(n.keys@, lo, i),
                child_hi(n.keys@, hi, i),
                (d - 1) as nat,
                order,
            );
        }
    }
}

} // verus!
