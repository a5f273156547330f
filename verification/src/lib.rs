//! A self-balancing ordered key-value container: an AVL tree over `u64` keys
//! and arbitrary values.  Insertion and deletion keep, for every node, the
//! heights of the two child subtrees within one of each other, so lookups run
//! in time logarithmic in the number of keys.
use vstd::prelude::*;

pub mod laws;
pub mod node;

use crate::node::Node;
use crate::node::height_of;
use crate::node::lemma_map_of_facts;
use crate::node::map_of;
use crate::node::row_of;
use crate::node::wf_opt;

verus! {

/// An AVL tree: an ordered map from `u64` keys to values, holding zero or one
/// root node.  Every mutating operation preserves `wf`, and the contracts
/// describe each operation's effect on the abstract map `self@`.
pub struct AvlTree<V> {
    pub root: Option<Box<Node<V>>>,
}

impl<V> View for AvlTree<V> {
    type V = Map<u64, V>;

    open spec fn view(&self) -> Map<u64, V> {
        map_of(self.root)
    }
}

impl<V> AvlTree<V> {
    /// The tree invariant: every node is in search order relative to its
    /// subtrees, caches its exact height, and has child heights that differ
    /// by at most one.
    pub open spec fn wf(self) -> bool {
        wf_opt(self.root)
    }

    /// The height of the tree: 0 when empty, else the root's height.
    pub open spec fn spec_height(self) -> nat {
        height_of(self.root)
    }

    /// An empty tree.
    pub fn new() -> (t: AvlTree<V>)
        ensures
            t.wf(),
            t@ == Map::<u64, V>::empty(),
            t.spec_height() == 0,
    {
        AvlTree { root: None }
    }

    /// A tree seeded with a single key-value pair.
    pub fn from(key: u64, value: V) -> (t: AvlTree<V>)
        ensures
            t.wf(),
            t@ == Map::<u64, V>::empty().insert(key, value),
            t.spec_height() == 1,
    {
        AvlTree { root: Some(Box::new(Node::new(key, value))) }
    }

    /// Insert `key` mapped to `value` below `slot`, rebalancing on the way
    /// back up.  Returns false, and changes nothing, when the key is already
    /// present.
    fn insert_rec(slot: &mut Option<Box<Node<V>>>, key: u64, value: V) -> (inserted: bool)
        requires
            wf_opt(*old(slot)),
        ensures
            wf_opt(*final(slot)),
            inserted == !map_of(*old(slot)).dom().contains(key),
            inserted ==> map_of(*final(slot)) == map_of(*old(slot)).insert(key, value),
            !inserted ==> *final(slot) == *old(slot),
            height_of(*old(slot)) <= height_of(*final(slot)) <= height_of(*old(slot)) + 1,
        decreases *old(slot),
    {
        match slot.take() {
            None => {
                *slot = Some(Box::new(Node::new(key, value)));
                proof {
                    assert(map_of(*slot) =~= map_of(*old(slot)).insert(key, value));
                }
                true
            },
            Some(mut n) => {
                proof {
                    lemma_map_of_facts(Some(n));
                }
                if key == n.key {
                    *slot = Some(n);
                    false
                } else if key < n.key {
                    let inserted = Self::insert_rec(&mut n.left, key, value);
                    if inserted {
                        let n2 = Node::balance(n);
                        proof {
                            assert(n2.as_map() =~= map_of(*old(slot)).insert(key, value));
                        }
                        *slot = Some(n2);
                    } else {
                        *slot = Some(n);
                    }
                    inserted
                } else {
                    let inserted = Self::insert_rec(&mut n.right, key, value);
                    if inserted {
                        let n2 = Node::balance(n);
                        proof {
                            assert(n2.as_map() =~= map_of(*old(slot)).insert(key, value));
                        }
                        *slot = Some(n2);
                    } else {
                        *slot = Some(n);
                    }
                    inserted
                }
            },
        }
    }

    /// Insert a key-value pair.  Returns true when the key was new and the
    /// pair went in; returns false, and leaves the tree untouched, when the
    /// key was already present.
    pub fn insert(&mut self, key: u64, value: V) -> (inserted: bool)
        requires
            old(self).wf(),
        ensures
            final(self).wf(),
            inserted == !old(self)@.dom().contains(key),
            inserted ==> final(self)@ == old(self)@.insert(key, value),
            !inserted ==> *final(self) == *old(self),
            old(self).spec_height() <= final(self).spec_height() <= old(self).spec_height() + 1,
    {
        Self::insert_rec(&mut self.root, key, value)
    }

    /// Remove `key` from the subtree `sub`, rebalancing every node on the way
    /// back up.  Returns the new subtree and whether the key was found; when
    /// it was not, the subtree comes back exactly as it went in.
    fn remove_rec(sub: Option<Box<Node<V>>>, key: u64) -> (r: (Option<Box<Node<V>>>, bool))
        requires
            wf_opt(sub),
        ensures
            wf_opt(r.0),
            r.1 == map_of(sub).dom().contains(key),
            r.1 ==> map_of(r.0) == map_of(sub).remove(key),
            !r.1 ==> r.0 == sub,
            height_of(r.0) <= height_of(sub),
            height_of(sub) <= height_of(r.0) + 1,
        decreases sub,
    {
        let mut n = match sub {
            Some(n) => n,
            None => {
                return (None, false);
            },
        };
        proof {
            lemma_map_of_facts(sub);
        }
        if key == n.key {
            match (n.left.take(), n.right.take()) {
                (None, None) => {
                    proof {
                        assert(map_of(sub).remove(key) =~= Map::<u64, V>::empty());
                    }
                    (None, true)
                },
                (left, None) => {
                    proof {
                        assert(map_of(sub).remove(key) =~= map_of(left));
                    }
                    (left, true)
                },
                (None, right) => {
                    proof {
                        assert(map_of(sub).remove(key) =~= map_of(right));
                    }
                    (right, true)
                },
                (left, Some(right)) => {
                    proof {
                        assert(sub.unwrap().wf());
                        assert(left == sub.unwrap().left);
                        assert(Some(right) == sub.unwrap().right);
                        assert(right.wf());
                        lemma_map_of_facts(Some(right));
                    }
                    let (min, new_right) = Node::extract_min_rec(right);
                    let mut m = min.unwrap();
                    m.left = left;
                    m.right = new_right;
                    let m2 = Node::balance(m);
                    proof {
                        assert(map_of(Some(m2)) =~= map_of(sub).remove(key));
                    }
                    (Some(m2), true)
                },
            }
        } else if key < n.key {
            let child = n.left.take();
            let (new_left, matched) = Self::remove_rec(child, key);
            n.left = new_left;
            if matched {
                let n2 = Node::balance(n);
                proof {
                    assert(map_of(Some(n2)) =~= map_of(sub).remove(key));
                }
                (Some(n2), true)
            } else {
                (Some(n), false)
            }
        } else {
            let child = n.right.take();
            let (new_right, matched) = Self::remove_rec(child, key);
            n.right = new_right;
            if matched {
                let n2 = Node::balance(n);
                proof {
                    assert(map_of(Some(n2)) =~= map_of(sub).remove(key));
                }
                (Some(n2), true)
            } else {
                (Some(n), false)
            }
        }
    }

    /// Remove a key and its value.  Returns true when the key was present and
    /// its node was removed; returns false, and leaves the tree untouched,
    /// when the key was absent.
    pub fn remove(&mut self, key: u64) -> (removed: bool)
        requires
            old(self).wf(),
        ensures
            final(self).wf(),
            removed == old(self)@.dom().contains(key),
            removed ==> final(self)@ == old(self)@.remove(key),
            !removed ==> *final(self) == *old(self),
            final(self).spec_height() <= old(self).spec_height(),
            old(self).spec_height() <= final(self).spec_height() + 1,
    {
        let root = self.root.take();
        let (new_root, removed) = Self::remove_rec(root, key);
        self.root = new_root;
        removed
    }

    /// Look a key up below `sub`.
    fn find_in<'a>(sub: &'a Option<Box<Node<V>>>, key: u64) -> (r: Option<&'a V>)
        requires
            wf_opt(*sub),
        ensures
            match r {
                Some(v) => map_of(*sub).dom().contains(key) && map_of(*sub)[key] == *v,
                None => !map_of(*sub).dom().contains(key),
            },
        decreases *sub,
    {
        match sub {
            None => None,
            Some(n) => {
                proof {
                    lemma_map_of_facts(*sub);
                }
                if key == n.key {
                    Some(&n.value)
                } else if key < n.key {
                    Self::find_in(&n.left, key)
                } else {
                    Self::find_in(&n.right, key)
                }
            },
        }
    }

    /// Append to `out` the (key, height) pairs of the nodes `d` levels below
    /// the top of `sub`, from left to right.
    fn collect_row(sub: &Option<Box<Node<V>>>, d: usize, out: &mut Vec<(u64, u32)>)
        ensures
            final(out)@ == old(out)@ + row_of(*sub, d as nat),
        decreases *sub,
    {
        match sub {
            None => {
                proof {
                    assert(out@ =~= old(out)@ + row_of(*sub, d as nat));
                }
            },
            Some(n) => {
                if d == 0 {
                    out.push((n.key, n.height));
                    proof {
                        assert(out@ =~= old(out)@ + row_of(*sub, 0));
                    }
                } else {
                    Self::collect_row(&n.left, d - 1, out);
                    Self::collect_row(&n.right, d - 1, out);
                    proof {
                        assert(out@ =~= old(out)@ + row_of(*sub, d as nat));
                    }
                }
            },
        }
    }

    /// A read-only, breadth-by-depth dump of the tree's shape: one row per
    /// level, each row listing the (key, height) pairs of that level's nodes
    /// from left to right.  Meant for presentation and debugging; the tree is
    /// never changed.
    pub fn levels(&self) -> (r: Vec<Vec<(u64, u32)>>)
        requires
            self.wf(),
        ensures
            r@.len() == self.spec_height(),
            forall|d: int| 0 <= d < r@.len() ==> r@[d]@ == row_of(self.root, d as nat),
    {
        proof {
            crate::laws::lemma_height_cap(self.root);
        }
        let h: u32 = match &self.root {
            None => 0,
            Some(n) => n.height,
        };
        let mut out: Vec<Vec<(u64, u32)>> = Vec::new();
        let mut d: usize = 0;
        while d < h as usize
            invariant
                self.wf(),
                h == self.spec_height(),
                h <= 129,
                d <= h,
                out@.len() == d,
                forall|i: int| 0 <= i < d ==> out@[i]@ == row_of(self.root, i as nat),
            decreases h - d,
        {
            let mut row: Vec<(u64, u32)> = Vec::new();
            Self::collect_row(&self.root, d, &mut row);
            proof {
                assert(row@ =~= row_of(self.root, d as nat));
            }
            out.push(row);
            d = d + 1;
        }
        out
    }

    /// Look a key up: a reference to its value when the key is present, and
    /// an empty result otherwise.  The tree is never changed.
    pub fn find_value(&self, key: u64) -> (r: Option<&V>)
        requires
            self.wf(),
        ensures
            match r {
                Some(v) => self@.dom().contains(key) && self@[key] == *v,
                None => !self@.dom().contains(key),
            },
    {
        Self::find_in(&self.root, key)
    }
}

} // verus!
