//! Proof-only material: the facts that hold of every well-formed tree
//! (exact node counts, the AVL height bound) and the laws relating the
//! container's operations to each other.
use vstd::prelude::*;

use vstd::arithmetic::power2::pow2;
use vstd::arithmetic::power2::lemma2_to64;
use vstd::arithmetic::power2::lemma2_to64_rest;
use vstd::arithmetic::power2::lemma_pow2_adds;
use vstd::set_lib::lemma_set_disjoint_lens;

use crate::node::Node;
use crate::node::height_of;
use crate::node::in_order_of;
use crate::node::map_of;
use crate::node::size_of;
use crate::node::wf_opt;
use crate::AvlTree;

verus! {

/// The Fibonacci numbers.  An AVL tree of height `h` has at least
/// `fib(h + 2) - 1` nodes, which is what bounds the height of the tree
/// in terms of its size.
pub open spec fn fib(k: nat) -> nat
    decreases k,
{
    if k == 0 {
        0
    } else if k == 1 {
        1
    } else {
        fib((k - 2) as nat) + fib((k - 1) as nat)
    }
}

/// Fibonacci numbers never decrease.
pub proof fn lemma_fib_mono(a: nat, b: nat)
    requires
        a <= b,
    ensures
        fib(a) <= fib(b),
    decreases b - a,
{
    if a < b {
        lemma_fib_mono(a, (b - 1) as nat);
        if b >= 2 {
            assert(fib(b) == fib((b - 2) as nat) + fib((b - 1) as nat));
        }
    }
}

/// Every other Fibonacci number at least doubles, so `fib` outgrows `pow2`
/// at half the index.
pub proof fn lemma_fib_pow2(m: nat)
    ensures
        fib(2 * m + 2) >= pow2(m),
    decreases m,
{
    if m == 0 {
        lemma2_to64();
        assert(fib(2) == 1) by {
            reveal_with_fuel(fib, 3);
        }
    } else {
        lemma_fib_pow2((m - 1) as nat);
        lemma_fib_mono(2 * m, 2 * m + 1);
        assert(fib(2 * m + 2) == fib(2 * m) + fib(2 * m + 1));
        lemma_pow2_adds((m - 1) as nat, 1);
        lemma2_to64();
        assert(pow2(m) == pow2((m - 1) as nat) * 2);
    }
}

/// A subtree in search order whose keys all lie strictly between `lo` and
/// `hi` has at most `hi - lo - 1` nodes: each node consumes one distinct
/// integer of that open interval.
pub proof fn lemma_size_in_range<V>(sub: Option<Box<Node<V>>>, lo: int, hi: int)
    requires
        wf_opt(sub),
        lo < hi,
        forall|j: u64| map_of(sub).dom().contains(j) ==> lo < j && j < hi,
    ensures
        size_of(sub) <= hi - lo - 1,
    decreases sub,
{
    match sub {
        None => {
        },
        Some(n) => {
            assert(map_of(sub) == n.as_map());
            assert(map_of(sub).dom().contains(n.key));
            assert forall|j: u64| map_of(n.left).dom().contains(j) implies lo < j && j
                < n.key by {
                assert(map_of(sub).dom().contains(j));
            }
            assert forall|j: u64| map_of(n.right).dom().contains(j) implies (n.key as int) < j
                && j < hi by {
                assert(map_of(sub).dom().contains(j));
            }
            lemma_size_in_range(n.left, lo, n.key as int);
            lemma_size_in_range(n.right, n.key as int, hi);
        },
    }
}

/// The minimum-size law of AVL trees: balance forces at least
/// `fib(height + 2) - 1` nodes into a subtree of a given height.
pub proof fn lemma_avl_min_size<V>(sub: Option<Box<Node<V>>>)
    requires
        wf_opt(sub),
    ensures
        fib(height_of(sub) + 2) <= size_of(sub) + 1,
    decreases sub,
{
    match sub {
        None => {
            assert(fib(2) == 1) by {
                reveal_with_fuel(fib, 3);
            }
        },
        Some(n) => {
            lemma_avl_min_size(n.left);
            lemma_avl_min_size(n.right);
            let h = height_of(sub);
            let hl = height_of(n.left);
            let hr = height_of(n.right);
            let mn: nat = if hl >= hr {
                hr
            } else {
                hl
            };
            let mx: nat = if hl >= hr {
                hl
            } else {
                hr
            };
            assert(h == mx + 1);
            assert(fib(h + 2) == fib(h) + fib(h + 1));
            lemma_fib_mono(h, mn + 2);
            assert(fib(h + 1) == fib(mx + 2));
            assert(size_of(sub) == 1 + size_of(n.left) + size_of(n.right));
        },
    }
}

/// The keys of a well-formed subtree form a finite set with exactly one
/// element per node: the key sets of the two children are disjoint (all
/// below, respectively above, the root's key) and miss the root's key.
pub proof fn lemma_size_is_dom_len<V>(sub: Option<Box<Node<V>>>)
    requires
        wf_opt(sub),
    ensures
        map_of(sub).dom().finite(),
        map_of(sub).dom().len() == size_of(sub),
    decreases sub,
{
    match sub {
        None => {
            assert(map_of(sub).dom() =~= Set::<u64>::empty());
        },
        Some(n) => {
            lemma_size_is_dom_len(n.left);
            lemma_size_is_dom_len(n.right);
            let dl = map_of(n.left).dom();
            let dr = map_of(n.right).dom();
            assert(map_of(sub).dom() =~= dl.union(dr).insert(n.key));
            assert(dl.disjoint(dr));
            lemma_set_disjoint_lens(dl, dr);
            assert(!dl.union(dr).contains(n.key));
        },
    }
}

/// An in-order traversal visits exactly the stored keys, one node each.
pub proof fn lemma_in_order_elems<V>(sub: Option<Box<Node<V>>>)
    ensures
        in_order_of(sub).len() == size_of(sub),
        forall|i: int| 0 <= i < in_order_of(sub).len() ==> map_of(sub).dom().contains(
            #[trigger] in_order_of(sub)[i],
        ),
    decreases sub,
{
    match sub {
        None => {
        },
        Some(n) => {
            lemma_in_order_elems(n.left);
            lemma_in_order_elems(n.right);
            crate::node::lemma_map_of_facts(sub);
            let s = in_order_of(sub);
            let sl = in_order_of(n.left);
            let sr = in_order_of(n.right);
            assert forall|i: int| 0 <= i < s.len() implies map_of(sub).dom().contains(
                #[trigger] s[i],
            ) by {
                if i < sl.len() {
                    assert(s[i] == sl[i]);
                } else if i == sl.len() {
                    assert(s[i] == n.key);
                } else {
                    assert(s[i] == sr[i - sl.len() - 1]);
                }
            }
        },
    }
}

/// The ordering law: an in-order traversal of a well-formed tree yields its
/// keys in strictly increasing order.
pub proof fn lemma_in_order_sorted<V>(sub: Option<Box<Node<V>>>)
    requires
        wf_opt(sub),
    ensures
        forall|i: int, j: int|
            0 <= i < j < in_order_of(sub).len() ==> #[trigger] in_order_of(sub)[i]
                < #[trigger] in_order_of(sub)[j],
    decreases sub,
{
    match sub {
        None => {
        },
        Some(n) => {
            lemma_in_order_sorted(n.left);
            lemma_in_order_sorted(n.right);
            lemma_in_order_elems(n.left);
            lemma_in_order_elems(n.right);
            let s = in_order_of(sub);
            let sl = in_order_of(n.left);
            let sr = in_order_of(n.right);
            assert forall|i: int, j: int| 0 <= i < j < s.len() implies #[trigger] s[i]
                < #[trigger] s[j] by {
                if j < sl.len() {
                    assert(s[i] == sl[i] && s[j] == sl[j]);
                } else if i < sl.len() && j == sl.len() {
                    assert(s[i] == sl[i] && s[j] == n.key);
                    assert(map_of(n.left).dom().contains(sl[i]));
                } else if i < sl.len() {
                    assert(s[i] == sl[i] && s[j] == sr[j - sl.len() - 1]);
                    assert(map_of(n.left).dom().contains(sl[i]));
                    assert(map_of(n.right).dom().contains(sr[j - sl.len() - 1]));
                } else if i == sl.len() {
                    assert(s[i] == n.key && s[j] == sr[j - sl.len() - 1]);
                    assert(map_of(n.right).dom().contains(sr[j - sl.len() - 1]));
                } else {
                    assert(s[i] == sr[i - sl.len() - 1] && s[j] == sr[j - sl.len() - 1]);
                }
            }
        },
    }
}

/// After a successful insert of `key` mapped to `value`, looking the key up
/// yields exactly that value.
pub proof fn lemma_insert_then_find<V>(pre: AvlTree<V>, post: AvlTree<V>, key: u64, value: V)
    requires
        post@ == pre@.insert(key, value),
    ensures
        post@.dom().contains(key),
        post@[key] == value,
{
}

/// After a successful removal of `key`, the key is gone, while every other
/// key is still present with its original value.
pub proof fn lemma_remove_then_find<V>(pre: AvlTree<V>, post: AvlTree<V>, key: u64)
    requires
        post@ == pre@.remove(key),
    ensures
        !post@.dom().contains(key),
        forall|j: u64| j != key ==> #[trigger] post@.dom().contains(j) == pre@.dom().contains(j),
        forall|j: u64| j != key && #[trigger] pre@.dom().contains(j) ==> post@[j] == pre@[j],
{
}

/// A successful insert grows the number of stored keys by exactly one.
pub proof fn lemma_insert_count<V>(pre: AvlTree<V>, post: AvlTree<V>, key: u64, value: V)
    requires
        pre.wf(),
        !pre@.dom().contains(key),
        post@ == pre@.insert(key, value),
    ensures
        post@.dom().len() == pre@.dom().len() + 1,
        post@.dom().finite(),
{
    lemma_size_is_dom_len(pre.root);
    assert(post@.dom() =~= pre@.dom().insert(key));
}

/// A successful removal shrinks the number of stored keys by exactly one.
pub proof fn lemma_remove_count<V>(pre: AvlTree<V>, post: AvlTree<V>, key: u64)
    requires
        pre.wf(),
        pre@.dom().contains(key),
        post@ == pre@.remove(key),
    ensures
        post@.dom().len() + 1 == pre@.dom().len(),
        post@.dom().finite(),
{
    lemma_size_is_dom_len(pre.root);
    assert(post@.dom() =~= pre@.dom().remove(key));
}

/// The AVL height bound: a well-formed tree of height `h` holds at least
/// `fib(h + 2) - 1` keys, so the height is at most logarithmic (about
/// `1.44 * log2`) in the number of keys; in particular `pow2(h / 2)` never
/// exceeds the key count plus one, and the height never exceeds 129.
pub proof fn lemma_height_bound<V>(t: AvlTree<V>)
    requires
        t.wf(),
    ensures
        fib(t.spec_height() + 2) <= t@.dom().len() + 1,
        pow2(t.spec_height() / 2) <= t@.dom().len() + 1,
        t.spec_height() <= 129,
{
    lemma_avl_min_size(t.root);
    lemma_size_is_dom_len(t.root);
    lemma_height_cap(t.root);
    let m = t.spec_height() / 2;
    lemma_fib_pow2(m);
    lemma_fib_mono(2 * m + 2, t.spec_height() + 2);
}

/// No well-formed tree is taller than 129: a taller one would need more
/// nodes than there are distinct `u64` keys.
pub proof fn lemma_height_cap<V>(sub: Option<Box<Node<V>>>)
    requires
        wf_opt(sub),
    ensures
        height_of(sub) <= 129,
{
    let h = height_of(sub);
    if h >= 130 {
        lemma_avl_min_size(sub);
        lemma_size_in_range(sub, -1, 0x10000000000000000);
        lemma_fib_mono(132, h + 2);
        lemma_fib_pow2(65);
        lemma2_to64();
        lemma2_to64_rest();
        lemma_pow2_adds(64, 1);
        assert(pow2(65) == pow2(64) * pow2(1));
        assert(false);
    }
}

} // verus!
