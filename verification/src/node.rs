use vstd::prelude::*;

verus! {

/// One node of an AVL tree: a key, its value, the cached height of the
/// subtree rooted here, and two optional, exclusively owned child subtrees.
pub struct Node<V> {
    pub key: u64,
    pub value: V,
    pub height: u32,
    pub left: Option<Box<Node<V>>>,
    pub right: Option<Box<Node<V>>>,
}

/// The larger of two natural numbers.
pub open spec fn nat_max(a: nat, b: nat) -> nat {
    if a >= b {
        a
    } else {
        b
    }
}

/// The cached height of an optional subtree; an absent subtree has height 0.
pub open spec fn height_of<V>(sub: Option<Box<Node<V>>>) -> nat {
    match sub {
        None => 0,
        Some(n) => n.height as nat,
    }
}

/// The number of nodes in an optional subtree.
pub open spec fn size_of<V>(sub: Option<Box<Node<V>>>) -> nat
    decreases sub,
{
    match sub {
        None => 0,
        Some(n) => 1 + size_of(n.left) + size_of(n.right),
    }
}

/// The key-value map held by an optional subtree.
pub open spec fn map_of<V>(sub: Option<Box<Node<V>>>) -> Map<u64, V>
    decreases sub,
{
    match sub {
        None => Map::empty(),
        Some(n) => n.as_map(),
    }
}

/// Every key of `m` lies strictly below `k`.
pub open spec fn keys_below<V>(m: Map<u64, V>, k: u64) -> bool {
    forall|j: u64| m.dom().contains(j) ==> j < k
}

/// Every key of `m` lies strictly above `k`.
pub open spec fn keys_above<V>(m: Map<u64, V>, k: u64) -> bool {
    forall|j: u64| m.dom().contains(j) ==> j > k
}

/// The keys of a subtree in the order an in-order traversal visits them:
/// the whole left subtree, then the node itself, then the right subtree.
pub open spec fn in_order_of<V>(sub: Option<Box<Node<V>>>) -> Seq<u64>
    decreases sub,
{
    match sub {
        None => Seq::empty(),
        Some(n) => in_order_of(n.left) + seq![n.key] + in_order_of(n.right),
    }
}

/// The (key, cached height) pairs of the nodes that lie `d` levels below the
/// top of `sub`, listed from left to right: level 0 is the subtree's own top
/// node, level 1 its children, and so on.
pub open spec fn row_of<V>(sub: Option<Box<Node<V>>>, d: nat) -> Seq<(u64, u32)>
    decreases sub,
{
    match sub {
        None => Seq::empty(),
        Some(n) => if d == 0 {
            seq![(n.key, n.height)]
        } else {
            row_of(n.left, (d - 1) as nat) + row_of(n.right, (d - 1) as nat)
        },
    }
}

/// Well-formedness of an optional subtree.
pub open spec fn wf_opt<V>(sub: Option<Box<Node<V>>>) -> bool
    decreases sub,
{
    match sub {
        None => true,
        Some(n) => n.wf(),
    }
}

/// How the keys of a nonempty subtree's map decompose into the root's key
/// and the keys of the two child subtrees.
pub(crate) proof fn lemma_map_of_facts<V>(sub: Option<Box<Node<V>>>)
    ensures
        sub is None ==> map_of(sub) == Map::<u64, V>::empty(),
        sub is Some ==> map_of(sub).dom().contains(sub.unwrap().key),
        sub is Some ==> forall|j: u64| #[trigger]
            map_of(sub.unwrap().left).dom().contains(j) ==> map_of(sub).dom().contains(j),
        sub is Some ==> forall|j: u64| #[trigger]
            map_of(sub.unwrap().right).dom().contains(j) ==> map_of(sub).dom().contains(j),
        sub is Some ==> forall|j: u64| #[trigger]
            map_of(sub).dom().contains(j) ==> j == sub.unwrap().key || map_of(
                sub.unwrap().left,
            ).dom().contains(j) || map_of(sub.unwrap().right).dom().contains(j),
{
    match sub {
        None => {
        },
        Some(n) => {
            assert(map_of(sub) == n.as_map());
            assert(n.as_map() == map_of(n.left).union_prefer_right(map_of(n.right)).insert(
                n.key,
                n.value,
            ));
        },
    }
}

impl<V> Node<V> {
    /// The key-value map held by the subtree rooted at this node.
    pub open spec fn as_map(self) -> Map<u64, V>
        decreases self,
    {
        map_of(self.left).union_prefer_right(map_of(self.right)).insert(self.key, self.value)
    }

    /// The AVL invariant for the subtree rooted at this node:
    /// search order between a node and both its subtrees, a cached height
    /// that equals one more than the taller child's, and child heights
    /// that differ by at most one -- all of it recursively.
    pub open spec fn wf(self) -> bool
        decreases self,
    {
        &&& keys_below(map_of(self.left), self.key)
        &&& keys_above(map_of(self.right), self.key)
        &&& wf_opt(self.left)
        &&& wf_opt(self.right)
        &&& self.height == 1 + nat_max(height_of(self.left), height_of(self.right))
        &&& height_of(self.left) <= height_of(self.right) + 1
        &&& height_of(self.right) <= height_of(self.left) + 1
    }

    /// A fresh leaf holding one key-value pair.
    pub fn new(key: u64, value: V) -> (n: Node<V>)
        ensures
            n.wf(),
            n.as_map() == Map::<u64, V>::empty().insert(key, value),
            n.height == 1,
            n.left is None,
            n.right is None,
            n.key == key,
    {
        let n = Node { key, value, height: 1, left: None, right: None };
        proof {
            assert(n.as_map() =~= Map::<u64, V>::empty().insert(key, value));
        }
        n
    }

    /// Recompute this node's cached height from the children's cached heights.
    pub fn update_height(&mut self)
        requires
            height_of(old(self).left) + 1 <= u32::MAX,
            height_of(old(self).right) + 1 <= u32::MAX,
        ensures
            final(self).key == old(self).key,
            final(self).value == old(self).value,
            final(self).left == old(self).left,
            final(self).right == old(self).right,
            final(self).height == 1 + nat_max(
                height_of(old(self).left),
                height_of(old(self).right),
            ),
    {
        let hl: u32 = match &self.left {
            None => 0,
            Some(l) => l.height,
        };
        let hr: u32 = match &self.right {
            None => 0,
            Some(r) => r.height,
        };
        self.height = 1 + if hl >= hr {
            hl
        } else {
            hr
        };
    }

    /// The balance factor of this node: left height minus right height.
    pub fn get_bf(&self) -> (bf: i32)
        requires
            height_of(self.left) <= i32::MAX,
            height_of(self.right) <= i32::MAX,
        ensures
            bf == height_of(self.left) - height_of(self.right),
    {
        let hl: u32 = match &self.left {
            None => 0,
            Some(l) => l.height,
        };
        let hr: u32 = match &self.right {
            None => 0,
            Some(r) => r.height,
        };
        (hl as i32) - (hr as i32)
    }

    /// Right rotation: the left child rises to the top of the subtree and the
    /// old top node becomes its right child.  Search order and the held
    /// entries are preserved; both rearranged nodes get exact cached heights.
    pub fn rotate_right(n: Box<Node<V>>) -> (r: Box<Node<V>>)
        requires
            n.left is Some,
            keys_below(map_of(n.left), n.key),
            keys_above(map_of(n.right), n.key),
            keys_below(map_of(n.left.unwrap().left), n.left.unwrap().key),
            keys_above(map_of(n.left.unwrap().right), n.left.unwrap().key),
            height_of(n.left.unwrap().left) + 1 <= u32::MAX,
            height_of(n.left.unwrap().right) + 2 <= u32::MAX,
            height_of(n.right) + 2 <= u32::MAX,
        ensures
            r.key == n.left.unwrap().key,
            r.value == n.left.unwrap().value,
            r.left == n.left.unwrap().left,
            r.right is Some,
            r.right.unwrap().key == n.key,
            r.right.unwrap().value == n.value,
            r.right.unwrap().left == n.left.unwrap().right,
            r.right.unwrap().right == n.right,
            r.right.unwrap().height == 1 + nat_max(
                height_of(n.left.unwrap().right),
                height_of(n.right),
            ),
            r.height == 1 + nat_max(height_of(r.left), height_of(r.right)),
            r.as_map() == n.as_map(),
    {
        let mut a = n;
        let mut b = a.left.take().unwrap();
        a.left = b.right.take();
        a.update_height();
        b.right = Some(a);
        let mut r = b;
        r.update_height();
        proof {
            let l = n.left.unwrap();
            let inner = r.right.unwrap();
            assert(r.as_map() =~= n.as_map()) by {
                assert(map_of(n.left) == l.as_map());
                assert(l.as_map() == map_of(l.left).union_prefer_right(map_of(l.right)).insert(
                    l.key,
                    l.value,
                ));
                assert(map_of(r.right) == inner.as_map());
                assert(inner.as_map() == map_of(l.right).union_prefer_right(
                    map_of(n.right),
                ).insert(n.key, n.value));
                assert(l.as_map().dom().contains(l.key));
            }
        }
        r
    }

    /// Left rotation, the mirror image of `rotate_right`: the right child
    /// rises to the top of the subtree and the old top node becomes its left
    /// child.
    pub fn rotate_left(n: Box<Node<V>>) -> (r: Box<Node<V>>)
        requires
            n.right is Some,
            keys_below(map_of(n.left), n.key),
            keys_above(map_of(n.right), n.key),
            keys_below(map_of(n.right.unwrap().left), n.right.unwrap().key),
            keys_above(map_of(n.right.unwrap().right), n.right.unwrap().key),
            height_of(n.right.unwrap().right) + 1 <= u32::MAX,
            height_of(n.right.unwrap().left) + 2 <= u32::MAX,
            height_of(n.left) + 2 <= u32::MAX,
        ensures
            r.key == n.right.unwrap().key,
            r.value == n.right.unwrap().value,
            r.right == n.right.unwrap().right,
            r.left is Some,
            r.left.unwrap().key == n.key,
            r.left.unwrap().value == n.value,
            r.left.unwrap().right == n.right.unwrap().left,
            r.left.unwrap().left == n.left,
            r.left.unwrap().height == 1 + nat_max(
                height_of(n.left),
                height_of(n.right.unwrap().left),
            ),
            r.height == 1 + nat_max(height_of(r.left), height_of(r.right)),
            r.as_map() == n.as_map(),
    {
        let mut a = n;
        let mut b = a.right.take().unwrap();
        a.right = b.left.take();
        a.update_height();
        b.left = Some(a);
        let mut r = b;
        r.update_height();
        proof {
            let c = n.right.unwrap();
            let inner = r.left.unwrap();
            assert(r.as_map() =~= n.as_map()) by {
                assert(map_of(n.right) == c.as_map());
                assert(c.as_map() == map_of(c.left).union_prefer_right(map_of(c.right)).insert(
                    c.key,
                    c.value,
                ));
                assert(map_of(r.left) == inner.as_map());
                assert(inner.as_map() == map_of(n.left).union_prefer_right(
                    map_of(c.left),
                ).insert(n.key, n.value));
                assert(c.as_map().dom().contains(c.key));
            }
        }
        r
    }

    /// Restore the AVL invariant at the top of a subtree whose two children
    /// are well-formed AVL trees with heights differing by at most two, as
    /// they are right after an insertion into or a removal from one child.
    /// When the heights differ by two, the heavy child's own balance factor
    /// picks the single or the double rotation; otherwise only the cached
    /// height is recomputed.
    pub fn balance(n: Box<Node<V>>) -> (r: Box<Node<V>>)
        requires
            wf_opt(n.left),
            wf_opt(n.right),
            keys_below(map_of(n.left), n.key),
            keys_above(map_of(n.right), n.key),
            height_of(n.left) <= height_of(n.right) + 2,
            height_of(n.right) <= height_of(n.left) + 2,
        ensures
            r.wf(),
            r.as_map() == n.as_map(),
            nat_max(height_of(n.left), height_of(n.right)) <= r.height,
            r.height <= 1 + nat_max(height_of(n.left), height_of(n.right)),
            (height_of(n.left) <= height_of(n.right) + 1 && height_of(n.right) <= height_of(
                n.left,
            ) + 1) ==> r.height == 1 + nat_max(height_of(n.left), height_of(n.right)),
    {
        proof {
            crate::laws::lemma_height_cap(n.left);
            crate::laws::lemma_height_cap(n.right);
        }
        let bf = n.get_bf();
        if bf >= -1 && bf <= 1 {
            let mut r = n;
            r.update_height();
            r
        } else if bf == 2 {
            let a = n;
            let lbf = a.left.as_ref().unwrap().get_bf();
            if lbf >= 0 {
                let r = Self::rotate_right(a);
                proof {
                    let l = n.left.unwrap();
                    let inner = r.right.unwrap();
                    lemma_map_of_facts(n.left);
                    lemma_map_of_facts(l.right);
                    lemma_map_of_facts(r.right);
                    assert(keys_below(map_of(inner.left), inner.key));
                    assert(keys_above(map_of(inner.right), inner.key));
                    assert(inner.wf());
                    assert(keys_above(map_of(r.right), r.key));
                    assert(r.wf());
                }
                r
            } else {
                let mut a = a;
                let l = a.left.take().unwrap();
                proof {
                    assert(n.left.unwrap().wf());
                    assert(n.left.unwrap().right is Some);
                    assert(n.left.unwrap().right.unwrap().wf());
                }
                let l2 = Self::rotate_left(l);
                proof {
                    lemma_map_of_facts(n.left);
                    lemma_map_of_facts(n.left.unwrap().right);
                    lemma_map_of_facts(l2.left);
                    assert(keys_below(map_of(l2.left), l2.key));
                    assert(keys_above(map_of(l2.right), l2.key));
                }
                a.left = Some(l2);
                let r = Self::rotate_right(a);
                proof {
                    let lo = n.left.unwrap();
                    let c = lo.right.unwrap();
                    let i1 = r.left.unwrap();
                    let i2 = r.right.unwrap();
                    lemma_map_of_facts(c.left);
                    lemma_map_of_facts(c.right);
                    lemma_map_of_facts(r.left);
                    lemma_map_of_facts(r.right);
                    assert(keys_above(map_of(i1.right), i1.key));
                    assert(keys_below(map_of(i1.left), i1.key));
                    assert(i1.wf());
                    assert(keys_below(map_of(i2.left), i2.key));
                    assert(keys_above(map_of(i2.right), i2.key));
                    assert(i2.wf());
                    assert(keys_below(map_of(r.left), r.key));
                    assert(keys_above(map_of(r.right), r.key));
                    assert(r.wf());
                    assert(r.as_map() == n.as_map());
                }
                r
            }
        } else {
            let a = n;
            let rbf = a.right.as_ref().unwrap().get_bf();
            if rbf <= 0 {
                let r = Self::rotate_left(a);
                proof {
                    let c = n.right.unwrap();
                    let inner = r.left.unwrap();
                    lemma_map_of_facts(n.right);
                    lemma_map_of_facts(c.left);
                    lemma_map_of_facts(r.left);
                    assert(keys_below(map_of(inner.left), inner.key));
                    assert(keys_above(map_of(inner.right), inner.key));
                    assert(inner.wf());
                    assert(keys_below(map_of(r.left), r.key));
                    assert(r.wf());
                }
                r
            } else {
                let mut a = a;
                let c = a.right.take().unwrap();
                proof {
                    assert(n.right.unwrap().wf());
                    assert(n.right.unwrap().left is Some);
                    assert(n.right.unwrap().left.unwrap().wf());
                }
                let c2 = Self::rotate_right(c);
                proof {
                    lemma_map_of_facts(n.right);
                    lemma_map_of_facts(n.right.unwrap().left);
                    lemma_map_of_facts(c2.right);
                    assert(keys_below(map_of(c2.left), c2.key));
                    assert(keys_above(map_of(c2.right), c2.key));
                }
                a.right = Some(c2);
                let r = Self::rotate_left(a);
                proof {
                    let co = n.right.unwrap();
                    let d = co.left.unwrap();
                    let i1 = r.left.unwrap();
                    let i2 = r.right.unwrap();
                    lemma_map_of_facts(d.left);
                    lemma_map_of_facts(d.right);
                    lemma_map_of_facts(r.left);
                    lemma_map_of_facts(r.right);
                    assert(keys_below(map_of(i1.left), i1.key));
                    assert(keys_above(map_of(i1.right), i1.key));
                    assert(i1.wf());
                    assert(keys_below(map_of(i2.left), i2.key));
                    assert(keys_above(map_of(i2.right), i2.key));
                    assert(i2.wf());
                    assert(keys_below(map_of(r.left), r.key));
                    assert(keys_above(map_of(r.right), r.key));
                    assert(r.wf());
                    assert(r.as_map() == n.as_map());
                }
                r
            }
        }
    }

    /// Detach the minimum-keyed node of this subtree.  Returns the detached
    /// node, with both of its child slots cleared, and the rebalanced rest of
    /// the subtree; the rest shrinks in height by at most one.  The detached
    /// node is handed back inside an `Option` that is always `Some`.
    pub fn extract_min_rec(n: Box<Node<V>>) -> (r: (Option<Box<Node<V>>>, Option<Box<Node<V>>>))
        requires
            n.wf(),
        ensures
            r.0 is Some,
            r.0.unwrap().left is None,
            r.0.unwrap().right is None,
            n.as_map().dom().contains(r.0.unwrap().key),
            n.as_map()[r.0.unwrap().key] == r.0.unwrap().value,
            forall|j: u64| n.as_map().dom().contains(j) ==> j >= r.0.unwrap().key,
            wf_opt(r.1),
            map_of(r.1) == n.as_map().remove(r.0.unwrap().key),
            height_of(r.1) <= n.height,
            n.height <= height_of(r.1) + 1,
        decreases n,
    {
        let mut m = n;
        match m.left.take() {
            None => {
                let rest = m.right.take();
                proof {
                    lemma_map_of_facts(Some(n));
                    assert(map_of(rest) =~= n.as_map().remove(n.key));
                }
                (Some(m), rest)
            },
            Some(l) => {
                let (min, new_left) = Self::extract_min_rec(l);
                m.left = new_left;
                proof {
                    lemma_map_of_facts(Some(n));
                    lemma_map_of_facts(n.left);
                }
                let m2 = Self::balance(m);
                proof {
                    let k = min.unwrap().key;
                    assert(map_of(Some(m2)) =~= n.as_map().remove(k));
                }
                (min, Some(m2))
            },
        }
    }
}

} // verus!
