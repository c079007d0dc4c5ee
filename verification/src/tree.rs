//! Balanced binary trees.
//!
//! A tree is an AVL tree: the heights of the two subtrees of a node differ by
//! at most one. Nodes are inserted and removed as in the textbook, with
//! rotations on the way up, so the shape of a tree (its height, its pre-order
//! and its post-order) follows from the sequence of operations.

use vstd::prelude::*;
use crate::notify::{notify_key, notify_value, DestroyNotice};
use crate::ptr_array::GPointer;
use crate::refcount::{Counted, Ref, RefHeap};
use crate::slots::Entry;

verus! {

/// Tree walk order.
#[derive(Debug, Clone, Copy, PartialEq, Eq, Structural)]
pub enum TraverseType {
    /// Left subtree, node, right subtree: sorted key order.
    InOrder,
    /// Node, left subtree, right subtree.
    PreOrder,
    /// Left subtree, right subtree, node.
    PostOrder,
    /// Not implemented: visits nothing.
    LevelOrder,
}

/// A subtree, or none.
pub type Link = Option<Box<GTreeNode>>;

/// A node of a tree.
#[derive(Debug)]
pub struct GTreeNode {
    /// The key of the node.
    pub key: GPointer,
    /// The value of the node.
    pub value: GPointer,
    /// The left subtree.
    pub left: Option<Box<GTreeNode>>,
    /// The right subtree.
    pub right: Option<Box<GTreeNode>>,
    /// The height of the right subtree minus that of the left one.
    pub balance: i8,
}

impl GTreeNode {
    /// The key and the value of the node.
    pub open spec fn entry(&self) -> Entry {
        Entry { key: self.key, value: self.value }
    }
}

/// The number of nodes on the longest way down.
pub open spec fn height(t: Link) -> nat
    decreases t,
{
    match t {
        None => 0,
        Some(n) => {
            let l = height(n.left);
            let r = height(n.right);
            1 + if l > r {
                l
            } else {
                r
            }
        },
    }
}

/// The entries in sorted key order.
pub open spec fn in_order(t: Link) -> Seq<Entry>
    decreases t,
{
    match t {
        None => Seq::empty(),
        Some(n) => in_order(n.left).push(n.entry()) + in_order(n.right),
    }
}

/// The entries, each node before its subtrees.
pub open spec fn pre_order(t: Link) -> Seq<Entry>
    decreases t,
{
    match t {
        None => Seq::empty(),
        Some(n) => seq![n.entry()] + pre_order(n.left) + pre_order(n.right),
    }
}

/// The entries, each node after its subtrees.
pub open spec fn post_order(t: Link) -> Seq<Entry>
    decreases t,
{
    match t {
        None => Seq::empty(),
        Some(n) => post_order(n.left) + post_order(n.right).push(n.entry()),
    }
}

/// The nodes in sorted key order.
pub open spec fn nodes_in_order(t: Link) -> Seq<GTreeNode>
    decreases t,
{
    match t {
        None => Seq::empty(),
        Some(n) => nodes_in_order(n.left).push(*n) + nodes_in_order(n.right),
    }
}

/// Every node's balance is the difference of its subtrees' heights, and at most 1 off zero.
pub open spec fn balanced(t: Link) -> bool
    decreases t,
{
    match t {
        None => true,
        Some(n) => {
            &&& balanced(n.left)
            &&& balanced(n.right)
            &&& n.balance == height(n.right) - height(n.left)
            &&& -1 <= n.balance <= 1
        },
    }
}

/// A node with these subtrees, its balance set to fit.
pub open spec fn joined(left: Link, entry: Entry, right: Link) -> GTreeNode {
    GTreeNode {
        key: entry.key,
        value: entry.value,
        left,
        right,
        balance: (height(right) - height(left)) as i8,
    }
}

/// The left child becomes the top.
pub open spec fn rotated_right(n: GTreeNode) -> GTreeNode {
    let l = n.left->0;
    joined(l.left, l.entry(), Some(Box::new(joined(l.right, n.entry(), n.right))))
}

/// The right child becomes the top.
pub open spec fn rotated_left(n: GTreeNode) -> GTreeNode {
    let r = n.right->0;
    joined(Some(Box::new(joined(n.left, n.entry(), r.left))), r.entry(), r.right)
}

/// A node with these subtrees, rotated where their heights differ by more than one: first the
/// higher child, where it leans to the other side, then the node.
#[verifier::opaque]
pub open spec fn rebalanced(left: Link, entry: Entry, right: Link) -> GTreeNode {
    if height(left) > height(right) + 1 {
        let l = *left->0;
        let lean = if height(l.right) > height(l.left) {
            Some(Box::new(rotated_left(l)))
        } else {
            left
        };
        rotated_right(joined(lean, entry, right))
    } else if height(right) > height(left) + 1 {
        let r = *right->0;
        let lean = if height(r.left) > height(r.right) {
            Some(Box::new(rotated_right(r)))
        } else {
            right
        };
        rotated_left(joined(left, entry, lean))
    } else {
        joined(left, entry, right)
    }
}

/// The larger of two heights.
spec fn higher(a: nat, b: nat) -> nat {
    if a > b {
        a
    } else {
        b
    }
}

proof fn lemma_joined(left: Link, entry: Entry, right: Link)
    requires
        height(left) <= height(right) + 3,
        height(right) <= height(left) + 3,
    ensures
        joined(left, entry, right).balance == height(right) - height(left),
        height(Some(Box::new(joined(left, entry, right)))) == 1 + higher(height(left), height(right)),
        in_order(Some(Box::new(joined(left, entry, right)))) == in_order(left).push(entry)
            + in_order(right),
        balanced(Some(Box::new(joined(left, entry, right)))) == (balanced(left) && balanced(right)
            && height(left) <= height(right) + 1 && height(right) <= height(left) + 1),
{
}

proof fn lemma_rotated_right(n: GTreeNode)
    requires
        n.left is Some,
    ensures
        in_order(Some(Box::new(rotated_right(n)))) == in_order(Some(Box::new(n))),
{
    let l = n.left->0;
    let low = joined(l.right, n.entry(), n.right);
    assert(in_order(Some(Box::new(low))) == in_order(l.right).push(n.entry()) + in_order(n.right));
    assert(in_order(n.left) == in_order(l.left).push(l.entry()) + in_order(l.right));
    assert(in_order(Some(Box::new(rotated_right(n)))) =~= in_order(l.left).push(l.entry()) + (
    in_order(l.right).push(n.entry()) + in_order(n.right)));
    assert(in_order(Some(Box::new(rotated_right(n)))) =~= in_order(Some(Box::new(n))));
}

proof fn lemma_rotated_left(n: GTreeNode)
    requires
        n.right is Some,
    ensures
        in_order(Some(Box::new(rotated_left(n)))) == in_order(Some(Box::new(n))),
{
    let r = n.right->0;
    let low = joined(n.left, n.entry(), r.left);
    assert(in_order(Some(Box::new(low))) == in_order(n.left).push(n.entry()) + in_order(r.left));
    assert(in_order(n.right) == in_order(r.left).push(r.entry()) + in_order(r.right));
    assert(in_order(Some(Box::new(rotated_left(n)))) =~= (in_order(n.left).push(n.entry())
        + in_order(r.left)).push(r.entry()) + in_order(r.right));
    assert(in_order(Some(Box::new(rotated_left(n)))) =~= in_order(Some(Box::new(n))));
}

/// The facts that rebalancing rests on: the entries stay in order, and balanced subtrees whose
/// heights differ by at most two become a balanced tree; where a rotation leaves the top with
/// balance zero, its height is that of the higher subtree, and one more where it does not.
proof fn lemma_rebalanced(left: Link, entry: Entry, right: Link)
    requires
        balanced(left),
        balanced(right),
        height(left) <= height(right) + 2,
        height(right) <= height(left) + 2,
    ensures
        balanced(Some(Box::new(rebalanced(left, entry, right)))),
        in_order(Some(Box::new(rebalanced(left, entry, right)))) == in_order(left).push(entry)
            + in_order(right),
        height(left) <= height(right) + 1 && height(right) <= height(left) + 1 ==> {
            &&& rebalanced(left, entry, right) == joined(left, entry, right)
            &&& rebalanced(left, entry, right).balance == height(right) - height(left)
            &&& height(Some(Box::new(rebalanced(left, entry, right)))) == 1 + higher(
                height(left),
                height(right),
            )
        },
        height(left) == height(right) + 2 || height(right) == height(left) + 2 ==> height(
            Some(Box::new(rebalanced(left, entry, right))),
        ) == higher(height(left), height(right)) + if rebalanced(left, entry, right).balance == 0 {
            0nat
        } else {
            1nat
        },
{
    reveal(rebalanced);
    let result = rebalanced(left, entry, right);
    if height(left) > height(right) + 1 {
        let l = *left->0;
        lemma_joined(left, entry, right);
        if height(l.right) > height(l.left) {
            let m = *l.right->0;
            assert(balanced(l.right));
            lemma_rotated_left(l);
            let lean = Some(Box::new(rotated_left(l)));
            lemma_joined(l.left, l.entry(), m.left);
            let low = Some(Box::new(joined(l.left, l.entry(), m.left)));
            lemma_joined(low, m.entry(), m.right);
            assert(rotated_left(l) == joined(low, m.entry(), m.right));
            lemma_joined(lean, entry, right);
            lemma_rotated_right(joined(lean, entry, right));
            lemma_joined(m.right, entry, right);
            let other = Some(Box::new(joined(m.right, entry, right)));
            lemma_joined(low, m.entry(), other);
            assert(result == joined(low, m.entry(), other));
        } else {
            lemma_rotated_right(joined(left, entry, right));
            lemma_joined(l.right, entry, right);
            lemma_joined(l.left, l.entry(), Some(Box::new(joined(l.right, entry, right))));
        }
    } else if height(right) > height(left) + 1 {
        let r = *right->0;
        lemma_joined(left, entry, right);
        if height(r.left) > height(r.right) {
            let m = *r.left->0;
            assert(balanced(r.left));
            lemma_rotated_right(r);
            let lean = Some(Box::new(rotated_right(r)));
            lemma_joined(m.right, r.entry(), r.right);
            let low = Some(Box::new(joined(m.right, r.entry(), r.right)));
            lemma_joined(m.left, m.entry(), low);
            assert(rotated_right(r) == joined(m.left, m.entry(), low));
            lemma_joined(left, entry, lean);
            lemma_rotated_left(joined(left, entry, lean));
            lemma_joined(left, entry, m.left);
            let other = Some(Box::new(joined(left, entry, m.left)));
            lemma_joined(other, m.entry(), low);
            assert(result == joined(other, m.entry(), low));
        } else {
            lemma_rotated_left(joined(left, entry, right));
            lemma_joined(left, entry, r.left);
            lemma_joined(Some(Box::new(joined(left, entry, r.left))), r.entry(), r.right);
        }
    } else {
        lemma_joined(left, entry, right);
    }
}

fn node_rotate_left(node: Box<GTreeNode>) -> (top: Box<GTreeNode>)
    requires
        node.right is Some,
        node.balance == height(node.right) - height(node.left),
        node.right->0.balance == height(node.right->0.right) - height(node.right->0.left),
        -2 <= node.balance <= 2,
        -2 <= node.right->0.balance <= 2,
    ensures
        *top == rotated_left(*node),
{
    let mut node = node;
    let ghost was = *node;
    proof {
        reveal_with_fuel(height, 3);
    }
    match node.right.take() {
        None => node,
        Some(right) => {
            let mut right = right;
            let a_bal: i8 = node.balance;
            let b_bal: i8 = right.balance;
            node.right = right.left.take();
            if b_bal <= 0 {
                if a_bal >= 1 {
                    right.balance = b_bal - 1;
                } else {
                    right.balance = a_bal + b_bal - 2;
                }
                node.balance = a_bal - 1;
            } else {
                if a_bal <= b_bal {
                    right.balance = a_bal - 2;
                } else {
                    right.balance = b_bal - 1;
                }
                node.balance = a_bal - b_bal - 1;
            }
            assert(*node == joined(was.left, was.entry(), was.right->0.left));
            right.left = Some(node);
            right
        },
    }
}

fn node_rotate_right(node: Box<GTreeNode>) -> (top: Box<GTreeNode>)
    requires
        node.left is Some,
        node.balance == height(node.right) - height(node.left),
        node.left->0.balance == height(node.left->0.right) - height(node.left->0.left),
        -2 <= node.balance <= 2,
        -2 <= node.left->0.balance <= 2,
    ensures
        *top == rotated_right(*node),
{
    let mut node = node;
    let ghost was = *node;
    proof {
        reveal_with_fuel(height, 3);
    }
    match node.left.take() {
        None => node,
        Some(left) => {
            let mut left = left;
            let a_bal: i8 = node.balance;
            let b_bal: i8 = left.balance;
            node.left = left.right.take();
            if b_bal <= 0 {
                if b_bal > a_bal {
                    left.balance = b_bal + 1;
                } else {
                    left.balance = a_bal + 2;
                }
                node.balance = a_bal - b_bal + 1;
            } else {
                if a_bal <= -1 {
                    left.balance = b_bal + 1;
                } else {
                    left.balance = a_bal + b_bal + 2;
                }
                node.balance = a_bal + 1;
            }
            assert(*node == joined(was.left->0.right, was.entry(), was.right));
            left.right = Some(node);
            left
        },
    }
}

/// Rotate a node whose subtrees' heights differ by two.
fn node_balance(node: Box<GTreeNode>) -> (top: Box<GTreeNode>)
    requires
        balanced(node.left),
        balanced(node.right),
        node.balance == height(node.right) - height(node.left),
        -2 <= node.balance <= 2,
    ensures
        *top == rebalanced(node.left, node.entry(), node.right),
{
    reveal(rebalanced);
    let mut node = node;
    let ghost was = *node;
    if node.balance < -1 {
        if let Some(left) = node.left.take() {
            if left.balance > 0 {
                let ghost l = *left;
                assert(balanced(l.right));
                assert(height(l.right) > 0);
                let turned = node_rotate_left(left);
                proof {
                    let m = *l.right->0;
                    lemma_joined(l.left, l.entry(), m.left);
                    lemma_joined(
                        Some(Box::new(joined(l.left, l.entry(), m.left))),
                        m.entry(),
                        m.right,
                    );
                    assert(*turned == joined(
                        Some(Box::new(joined(l.left, l.entry(), m.left))),
                        m.entry(),
                        m.right,
                    ));
                    assert(height(Some(turned)) == height(was.left));
                }
                node.left = Some(turned);
            } else {
                node.left = Some(left);
            }
        }
        assert(*node == joined(node.left, was.entry(), was.right));
        node_rotate_right(node)
    } else if node.balance > 1 {
        if let Some(right) = node.right.take() {
            if right.balance < 0 {
                let ghost r = *right;
                assert(balanced(r.left));
                assert(height(r.left) > 0);
                let turned = node_rotate_right(right);
                proof {
                    let m = *r.left->0;
                    lemma_joined(m.right, r.entry(), r.right);
                    lemma_joined(
                        m.left,
                        m.entry(),
                        Some(Box::new(joined(m.right, r.entry(), r.right))),
                    );
                    assert(*turned == joined(
                        m.left,
                        m.entry(),
                        Some(Box::new(joined(m.right, r.entry(), r.right))),
                    ));
                    assert(height(Some(turned)) == height(was.right));
                }
                node.right = Some(turned);
            } else {
                node.right = Some(right);
            }
        }
        assert(*node == joined(was.left, was.entry(), node.right));
        node_rotate_left(node)
    } else {
        node
    }
}

/// An order of keys.
pub type KeyOrder = spec_fn(GPointer, GPointer) -> i32;

/// A way to compare keys.
pub trait KeyCompare {
    /// The comparison can be made on all keys, and answers the same each time.
    spec fn usable(&self) -> bool;

    /// The answers: negative, zero or positive as the first key sorts before, with or after the
    /// second.
    spec fn order(&self) -> KeyOrder;

    fn compare(&self, a: GPointer, b: GPointer) -> (order: i32)
        requires
            self.usable(),
        ensures
            order == (self.order())(a, b),
    ;
}

/// A comparison function, with the order that it computes.
pub struct Plain<F> {
    pub func: F,
    pub ord: Ghost<KeyOrder>,
}

impl<F: Fn(GPointer, GPointer) -> i32> KeyCompare for Plain<F> {
    open spec fn usable(&self) -> bool {
        computes(self.func, self.ord@)
    }

    open spec fn order(&self) -> KeyOrder {
        self.ord@
    }

    fn compare(&self, a: GPointer, b: GPointer) -> (order: i32) {
        (self.func)(a, b)
    }
}

/// A comparison function with the data that it is handed on each call, and with the order that it
/// computes with that data.
pub struct WithData<F> {
    pub func: F,
    pub data: GPointer,
    pub ord: Ghost<KeyOrder>,
}

impl<F: Fn(GPointer, GPointer, GPointer) -> i32> KeyCompare for WithData<F> {
    open spec fn usable(&self) -> bool {
        computes_with(self.func, self.data, self.ord@)
    }

    open spec fn order(&self) -> KeyOrder {
        self.ord@
    }

    fn compare(&self, a: GPointer, b: GPointer) -> (order: i32) {
        (self.func)(a, b, self.data)
    }
}

/// A function can be called on all keys, and its answers are those of `ord`.
pub open spec fn computes<F: Fn(GPointer, GPointer) -> i32>(
    func: F,
    ord: KeyOrder,
) -> bool {
    &&& forall|a: GPointer, b: GPointer| #[trigger] func.requires((a, b))
    &&& forall|a: GPointer, b: GPointer, x: i32| #[trigger]
        func.ensures((a, b), x) ==> x == ord(a, b)
}

/// A function can be called on all keys with `data`, and its answers are those of `ord`.
pub open spec fn computes_with<F: Fn(GPointer, GPointer, GPointer) -> i32>(
    func: F,
    data: GPointer,
    ord: KeyOrder,
) -> bool {
    &&& forall|a: GPointer, b: GPointer| #[trigger] func.requires((a, b, data))
    &&& forall|a: GPointer, b: GPointer, x: i32| #[trigger]
        func.ensures((a, b, data), x) ==> x == ord(a, b)
}

/// An order sorts: it is a total preorder.
pub open spec fn total_preorder(ord: KeyOrder) -> bool {
    &&& forall|a: GPointer| #[trigger] ord(a, a) == 0
    &&& forall|a: GPointer, b: GPointer| (#[trigger] ord(a, b) < 0) == (ord(b, a) > 0)
    &&& forall|a: GPointer, b: GPointer, d: GPointer| #[trigger]
        ord(a, b) <= 0 && #[trigger] ord(b, d) <= 0 ==> ord(a, d) <= 0
}

/// The keys of the entries increase strictly.
#[verifier::opaque]
pub open spec fn sorted(c: KeyOrder, s: Seq<Entry>) -> bool {
    forall|i: int, j: int|
        0 <= i < j < s.len() ==> c((#[trigger] s[i]).key, (#[trigger] s[j]).key) < 0
}

/// How many entries at the start sort before `key`.
pub open spec fn rank(c: KeyOrder, s: Seq<Entry>, key: GPointer) -> int
    decreases s.len(),
{
    if s.len() == 0 || c(key, s[0].key) <= 0 {
        0
    } else {
        1 + rank(c, s.skip(1), key)
    }
}

/// How many entries at the start do not sort after `key`.
pub open spec fn rank_after(c: KeyOrder, s: Seq<Entry>, key: GPointer) -> int
    decreases s.len(),
{
    if s.len() == 0 || c(key, s[0].key) < 0 {
        0
    } else {
        1 + rank_after(c, s.skip(1), key)
    }
}

/// An entry has a key that sorts with `key`.
pub open spec fn present(c: KeyOrder, s: Seq<Entry>, key: GPointer) -> bool {
    rank(c, s, key) < s.len() && c(key, s[rank(c, s, key)].key) == 0
}

/// The entries with `value` put in under `key`: in the place of an entry with such a key, which
/// keeps its own key unless it is replaced, or between the entries that sort before and after.
pub open spec fn entries_with(
    c: KeyOrder,
    s: Seq<Entry>,
    key: GPointer,
    value: GPointer,
    replace: bool,
) -> Seq<Entry> {
    let at = rank(c, s, key);
    if present(c, s, key) {
        s.update(
            at,
            Entry {
                key: if replace {
                    key
                } else {
                    s[at].key
                },
                value,
            },
        )
    } else {
        s.insert(at, Entry { key, value })
    }
}

/// The entries without the one whose key sorts with `key`.
pub open spec fn entries_without(c: KeyOrder, s: Seq<Entry>, key: GPointer) -> Seq<Entry> {
    if present(c, s, key) {
        s.remove(rank(c, s, key))
    } else {
        s
    }
}

proof fn lemma_rank_range(c: KeyOrder, s: Seq<Entry>, key: GPointer)
    ensures
        0 <= rank(c, s, key) <= s.len(),
        0 <= rank_after(c, s, key) <= s.len(),
        forall|i: int| 0 <= i < rank(c, s, key) ==> c(key, (#[trigger] s[i]).key) > 0,
        forall|i: int| 0 <= i < rank_after(c, s, key) ==> c(key, (#[trigger] s[i]).key) >= 0,
        rank(c, s, key) < s.len() ==> c(key, s[rank(c, s, key)].key) <= 0,
        rank_after(c, s, key) < s.len() ==> c(key, s[rank_after(c, s, key)].key) < 0,
    decreases s.len(),
{
    if s.len() > 0 {
        let rest = s.skip(1);
        lemma_rank_range(c, rest, key);
        assert forall|i: int| 0 <= i < rank(c, s, key) implies c(key, (#[trigger] s[i]).key)
            > 0 by {
            if i > 0 {
                assert(rest[i - 1] == s[i]);
            }
        }
        assert forall|i: int| 0 <= i < rank_after(c, s, key) implies c(
            key,
            (#[trigger] s[i]).key,
        ) >= 0 by {
            if i > 0 {
                assert(rest[i - 1] == s[i]);
            }
        }
    }
}

/// The rank is the only position with the entries before it sorting before the key and the one at
/// it not.
proof fn lemma_rank_is(c: KeyOrder, s: Seq<Entry>, key: GPointer, n: int)
    requires
        0 <= n <= s.len(),
        forall|i: int| 0 <= i < n ==> c(key, (#[trigger] s[i]).key) > 0,
        n < s.len() ==> c(key, s[n].key) <= 0,
    ensures
        rank(c, s, key) == n,
{
    lemma_rank_range(c, s, key);
    let r = rank(c, s, key);
    if r < n {
        assert(c(key, s[r].key) > 0);
    } else if n < r {
        assert(c(key, s[n].key) > 0);
    }
}

proof fn lemma_rank_after_is(c: KeyOrder, s: Seq<Entry>, key: GPointer, n: int)
    requires
        0 <= n <= s.len(),
        forall|i: int| 0 <= i < n ==> c(key, (#[trigger] s[i]).key) >= 0,
        n < s.len() ==> c(key, s[n].key) < 0,
    ensures
        rank_after(c, s, key) == n,
{
    lemma_rank_range(c, s, key);
    let r = rank_after(c, s, key);
    if r < n {
        assert(c(key, s[r].key) >= 0);
    } else if n < r {
        assert(c(key, s[n].key) >= 0);
    }
}

/// Where the rank lies in a sequence that is split at an entry.
proof fn lemma_rank_split(
    c: KeyOrder,
    l: Seq<Entry>,
    e: Entry,
    r: Seq<Entry>,
    key: GPointer,
)
    requires
        total_preorder(c),
        sorted(c, l.push(e) + r),
    ensures
        sorted(c, l),
        sorted(c, r),
        c(key, e.key) < 0 ==> rank(c, l.push(e) + r, key) == rank(c, l, key) && rank_after(
            c,
            l.push(e) + r,
            key,
        ) == rank_after(c, l, key),
        c(key, e.key) >= 0 ==> rank(c, l, key) == l.len() && rank_after(c, l, key) == l.len(),
        c(key, e.key) == 0 ==> rank(c, l.push(e) + r, key) == l.len() && rank_after(
            c,
            l.push(e) + r,
            key,
        ) == l.len() + 1 && rank_after(c, r, key) == 0,
        c(key, e.key) > 0 ==> rank(c, l.push(e) + r, key) == l.len() + 1 + rank(c, r, key)
            && rank_after(c, l.push(e) + r, key) == l.len() + 1 + rank_after(c, r, key),
{
    reveal(sorted);
    let s = l.push(e) + r;
    let n = l.len() as int;
    assert forall|i: int, j: int| 0 <= i < j < l.len() implies c(
        (#[trigger] l[i]).key,
        (#[trigger] l[j]).key,
    ) < 0 by {
        assert(s[i] == l[i] && s[j] == l[j]);
    }
    assert forall|i: int, j: int| 0 <= i < j < r.len() implies c(
        (#[trigger] r[i]).key,
        (#[trigger] r[j]).key,
    ) < 0 by {
        assert(s[n + 1 + i] == r[i] && s[n + 1 + j] == r[j]);
    }
    assert(s[n] == e);
    lemma_rank_range(c, l, key);
    lemma_rank_range(c, r, key);
    let order = c(key, e.key);
    if order < 0 {
        let a = rank(c, l, key);
        let b = rank_after(c, l, key);
        assert forall|i: int| 0 <= i < a implies c(key, (#[trigger] s[i]).key) > 0 by {
            assert(s[i] == l[i]);
        }
        assert forall|i: int| 0 <= i < b implies c(key, (#[trigger] s[i]).key) >= 0 by {
            assert(s[i] == l[i]);
        }
        lemma_rank_is(c, s, key, a);
        lemma_rank_after_is(c, s, key, b);
    } else {
        assert(c(e.key, key) <= 0);
        assert forall|i: int| 0 <= i < n implies c(key, (#[trigger] s[i]).key) > 0 by {
            assert(c(s[i].key, s[n].key) < 0);
            assert(c(s[i].key, key) <= 0);
            if c(s[i].key, key) == 0 {
                assert(c(key, s[i].key) == 0);
                assert(c(e.key, s[i].key) <= 0);
            }
        }
        assert forall|i: int| 0 <= i < n implies c(key, (#[trigger] l[i]).key) > 0 by {
            assert(s[i] == l[i]);
        }
        lemma_rank_is(c, l, key, n);
        lemma_rank_after_is(c, l, key, n);
        if order == 0 {
            lemma_rank_is(c, s, key, n);
            if r.len() > 0 {
                assert(c(s[n].key, s[n + 1].key) < 0);
                assert(c(key, s[n + 1].key) <= 0);
                if c(key, s[n + 1].key) == 0 {
                    assert(c(s[n + 1].key, key) <= 0);
                    assert(c(s[n + 1].key, e.key) <= 0);
                }
            }
            lemma_rank_after_is(c, s, key, n + 1);
            if r.len() > 0 {
                assert(r[0] == s[n + 1]);
            }
            lemma_rank_after_is(c, r, key, 0);
        } else {
            let a = n + 1 + rank(c, r, key);
            let b = n + 1 + rank_after(c, r, key);
            assert forall|i: int| 0 <= i < a implies c(key, (#[trigger] s[i]).key) > 0 by {
                if i > n {
                    assert(s[i] == r[i - n - 1]);
                }
            }
            assert forall|i: int| 0 <= i < b implies c(key, (#[trigger] s[i]).key) >= 0 by {
                if i > n {
                    assert(s[i] == r[i - n - 1]);
                }
            }
            lemma_rank_is(c, s, key, a);
            lemma_rank_after_is(c, s, key, b);
        }
    }
}

/// Putting in and taking out of a sequence that is split at an entry.
proof fn lemma_entries_split(
    c: KeyOrder,
    l: Seq<Entry>,
    e: Entry,
    r: Seq<Entry>,
    key: GPointer,
    value: GPointer,
    replace: bool,
)
    requires
        total_preorder(c),
        sorted(c, l.push(e) + r),
    ensures
        sorted(c, l),
        sorted(c, r),
        c(key, e.key) < 0 ==> {
            let s = l.push(e) + r;
            &&& present(c, s, key) == present(c, l, key)
            &&& present(c, s, key) ==> s[rank(c, s, key)] == l[rank(c, l, key)]
            &&& entries_with(c, s, key, value, replace) == entries_with(
                c,
                l,
                key,
                value,
                replace,
            ).push(e) + r
            &&& entries_without(c, s, key) == entries_without(c, l, key).push(e) + r
        },
        c(key, e.key) > 0 ==> {
            let s = l.push(e) + r;
            &&& present(c, s, key) == present(c, r, key)
            &&& present(c, s, key) ==> s[rank(c, s, key)] == r[rank(c, r, key)]
            &&& entries_with(c, s, key, value, replace) == l.push(e) + entries_with(
                c,
                r,
                key,
                value,
                replace,
            )
            &&& entries_without(c, s, key) == l.push(e) + entries_without(c, r, key)
        },
        c(key, e.key) == 0 ==> {
            let s = l.push(e) + r;
            &&& present(c, s, key)
            &&& s[rank(c, s, key)] == e
            &&& entries_with(c, s, key, value, replace) == l.push(
                Entry {
                    key: if replace {
                        key
                    } else {
                        e.key
                    },
                    value,
                },
            ) + r
            &&& entries_without(c, s, key) == l + r
        },
{
    let s = l.push(e) + r;
    let n = l.len() as int;
    lemma_rank_split(c, l, e, r, key);
    lemma_rank_range(c, l, key);
    lemma_rank_range(c, r, key);
    assert(s[n] == e);
    let order = c(key, e.key);
    if order < 0 {
        let at = rank(c, l, key);
        if at < n {
            assert(s[at] == l[at]);
        }
        assert(entries_with(c, s, key, value, replace) =~= entries_with(
            c,
            l,
            key,
            value,
            replace,
        ).push(e) + r);
        assert(entries_without(c, s, key) =~= entries_without(c, l, key).push(e) + r);
    } else if order > 0 {
        let at = rank(c, r, key);
        if at < r.len() {
            assert(s[n + 1 + at] == r[at]);
        }
        assert(entries_with(c, s, key, value, replace) =~= l.push(e) + entries_with(
            c,
            r,
            key,
            value,
            replace,
        ));
        assert(entries_without(c, s, key) =~= l.push(e) + entries_without(c, r, key));
    } else {
        assert(entries_with(c, s, key, value, replace) =~= l.push(
            Entry {
                key: if replace {
                    key
                } else {
                    e.key
                },
                value,
            },
        ) + r);
        assert(entries_without(c, s, key) =~= l + r);
    }
}

/// The tree with `value` put in under `key`: a new leaf, with rotations on the way up, or a new
/// value (and key, where `replace`) in the node whose key sorts with it.
pub open spec fn inserted(
    c: KeyOrder,
    t: Link,
    key: GPointer,
    value: GPointer,
    replace: bool,
) -> Link
    decreases t,
{
    match t {
        None => Some(Box::new(joined(None, Entry { key, value }, None))),
        Some(n) => {
            let order = c(key, n.key);
            if order < 0 {
                Some(
                    Box::new(
                        rebalanced(inserted(c, n.left, key, value, replace), n.entry(), n.right),
                    ),
                )
            } else if order > 0 {
                Some(
                    Box::new(
                        rebalanced(n.left, n.entry(), inserted(c, n.right, key, value, replace)),
                    ),
                )
            } else {
                Some(
                    Box::new(
                        joined(
                            n.left,
                            Entry {
                                key: if replace {
                                    key
                                } else {
                                    n.key
                                },
                                value,
                            },
                            n.right,
                        ),
                    ),
                )
            }
        },
    }
}

/// The tree without its first entry, with rotations on the way up.
pub open spec fn without_first(t: Link) -> Link
    decreases t,
{
    match t {
        None => None,
        Some(n) => if n.left is None {
            n.right
        } else {
            Some(Box::new(rebalanced(without_first(n.left), n.entry(), n.right)))
        },
    }
}

/// The tree below a node, without the node: its one subtree, or the two joined by the first node
/// of the right one.
pub open spec fn without_top(n: GTreeNode) -> Link {
    if n.left is None {
        n.right
    } else if n.right is None {
        n.left
    } else {
        Some(Box::new(rebalanced(n.left, in_order(n.right)[0], without_first(n.right))))
    }
}

/// The tree without the node whose key sorts with `key`, with rotations on the way up.
pub open spec fn removed(c: KeyOrder, t: Link, key: GPointer) -> Link
    decreases t,
{
    match t {
        None => None,
        Some(n) => {
            let order = c(key, n.key);
            if order < 0 {
                Some(Box::new(rebalanced(removed(c, n.left, key), n.entry(), n.right)))
            } else if order > 0 {
                Some(Box::new(rebalanced(n.left, n.entry(), removed(c, n.right, key))))
            } else {
                without_top(*n)
            }
        },
    }
}

/// What [`inserted`] does to heights.
proof fn lemma_inserted_heights(
    c: KeyOrder,
    t: Link,
    key: GPointer,
    value: GPointer,
    replace: bool,
)
    requires
        balanced(t),
    ensures
        balanced(inserted(c, t, key, value, replace)),
        height(t) <= height(inserted(c, t, key, value, replace)) <= height(t) + 1,
    decreases t,
{
    match t {
        None => {
            reveal_with_fuel(height, 2);
            reveal_with_fuel(balanced, 2);
        },
        Some(n) => {
            let e = n.entry();
            let order = c(key, n.key);
            if order < 0 {
                lemma_inserted_heights(c, n.left, key, value, replace);
                lemma_rebalanced(inserted(c, n.left, key, value, replace), e, n.right);
            } else if order > 0 {
                lemma_inserted_heights(c, n.right, key, value, replace);
                lemma_rebalanced(n.left, e, inserted(c, n.right, key, value, replace));
            } else {
                let kept = Entry {
                    key: if replace {
                        key
                    } else {
                        n.key
                    },
                    value,
                };
                lemma_joined(n.left, kept, n.right);
            }
        },
    }
}

/// What [`inserted`] does to the entries.
proof fn lemma_inserted_entries(
    c: KeyOrder,
    t: Link,
    key: GPointer,
    value: GPointer,
    replace: bool,
)
    requires
        total_preorder(c),
        balanced(t),
        sorted(c, in_order(t)),
    ensures
        in_order(inserted(c, t, key, value, replace)) == entries_with(
            c,
            in_order(t),
            key,
            value,
            replace,
        ),
    decreases t,
{
    match t {
        None => {
            reveal_with_fuel(in_order, 2);
            assert(in_order(inserted(c, t, key, value, replace)) =~= entries_with(
                c,
                in_order(t),
                key,
                value,
                replace,
            ));
        },
        Some(n) => {
            let e = n.entry();
            lemma_entries_split(c, in_order(n.left), e, in_order(n.right), key, value, replace);
            let order = c(key, n.key);
            if order < 0 {
                lemma_inserted_entries(c, n.left, key, value, replace);
                lemma_inserted_heights(c, n.left, key, value, replace);
                lemma_rebalanced(inserted(c, n.left, key, value, replace), e, n.right);
            } else if order > 0 {
                lemma_inserted_entries(c, n.right, key, value, replace);
                lemma_inserted_heights(c, n.right, key, value, replace);
                lemma_rebalanced(n.left, e, inserted(c, n.right, key, value, replace));
            }
        },
    }
}

/// What [`without_first`] does to heights and entries.
proof fn lemma_without_first(t: Link)
    requires
        t is Some,
        balanced(t),
    ensures
        in_order(t).len() > 0,
        balanced(without_first(t)),
        height(t) - 1 <= height(without_first(t)) <= height(t),
        in_order(without_first(t)) == in_order(t).skip(1),
    decreases t,
{
    if let Some(n) = t {
        if n.left is None {
            assert(in_order(n.left).len() == 0);
            assert(in_order(t).skip(1) =~= in_order(n.right));
            assert(height(n.left) == 0);
        } else {
            lemma_without_first(n.left);
            lemma_rebalanced(without_first(n.left), n.entry(), n.right);
            assert(in_order(without_first(t)) =~= in_order(t).skip(1));
        }
    }
}

/// What [`removed`] does to heights.
proof fn lemma_removed_heights(c: KeyOrder, t: Link, key: GPointer)
    requires
        balanced(t),
    ensures
        balanced(removed(c, t, key)),
        height(t) - 1 <= height(removed(c, t, key)) <= height(t),
    decreases t,
{
    if let Some(n) = t {
        let e = n.entry();
        let order = c(key, n.key);
        if order < 0 {
            lemma_removed_heights(c, n.left, key);
            lemma_rebalanced(removed(c, n.left, key), e, n.right);
        } else if order > 0 {
            lemma_removed_heights(c, n.right, key);
            lemma_rebalanced(n.left, e, removed(c, n.right, key));
        } else if n.left is Some && n.right is Some {
            lemma_without_first(n.right);
            lemma_rebalanced(n.left, in_order(n.right)[0], without_first(n.right));
        }
    }
}

/// What [`removed`] does to the entries.
proof fn lemma_removed_entries(c: KeyOrder, t: Link, key: GPointer)
    requires
        total_preorder(c),
        balanced(t),
        sorted(c, in_order(t)),
    ensures
        !present(c, in_order(t), key) ==> removed(c, t, key) == t,
        in_order(removed(c, t, key)) == entries_without(c, in_order(t), key),
    decreases t,
{
    if let Some(n) = t {
        let e = n.entry();
        let r = in_order(n.right);
        lemma_entries_split(c, in_order(n.left), e, r, key, 0, false);
        let order = c(key, n.key);
        if order < 0 {
            lemma_removed_entries(c, n.left, key);
            lemma_removed_heights(c, n.left, key);
            lemma_rebalanced(removed(c, n.left, key), e, n.right);
        } else if order > 0 {
            lemma_removed_entries(c, n.right, key);
            lemma_removed_heights(c, n.right, key);
            lemma_rebalanced(n.left, e, removed(c, n.right, key));
        } else {
            if n.left is Some && n.right is Some {
                lemma_without_first(n.right);
                lemma_rebalanced(n.left, r[0], without_first(n.right));
                assert(in_order(n.left).push(r[0]) + r.skip(1) =~= in_order(n.left) + r);
            } else {
                assert(in_order(removed(c, t, key)) =~= in_order(n.left) + r);
            }
        }
    }
}

/// Where a key is, in a sequence that is split at an entry.
proof fn lemma_present_split(
    c: KeyOrder,
    l: Seq<Entry>,
    e: Entry,
    r: Seq<Entry>,
    key: GPointer,
)
    requires
        total_preorder(c),
        sorted(c, l.push(e) + r),
    ensures
        sorted(c, l),
        sorted(c, r),
        c(key, e.key) < 0 ==> {
            let s = l.push(e) + r;
            &&& present(c, s, key) == present(c, l, key)
            &&& present(c, s, key) ==> s[rank(c, s, key)] == l[rank(c, l, key)]
        },
        c(key, e.key) > 0 ==> {
            let s = l.push(e) + r;
            &&& present(c, s, key) == present(c, r, key)
            &&& present(c, s, key) ==> s[rank(c, s, key)] == r[rank(c, r, key)]
        },
        c(key, e.key) == 0 ==> {
            let s = l.push(e) + r;
            &&& present(c, s, key)
            &&& s[rank(c, s, key)] == e
        },
{
    lemma_entries_split(c, l, e, r, key, 0, false);
}

/// Insert below a link. Returns the new link, whether it has grown in height, and the entry that
/// was under the key before.
fn insert_below<C: KeyCompare>(
    c: &C,
    link: Option<Box<GTreeNode>>,
    key: GPointer,
    value: GPointer,
    replace: bool,
) -> (result: (Option<Box<GTreeNode>>, bool, Option<Entry>))
    requires
        c.usable(),
        total_preorder(c.order()),
        balanced(link),
        sorted(c.order(), in_order(link)),
    ensures
        result.0 == inserted(c.order(), link, key, value, replace),
        result.1 == (height(result.0) > height(link)),
        result.2 == (if present(c.order(), in_order(link), key) {
            Some(in_order(link)[rank(c.order(), in_order(link), key)])
        } else {
            None
        }),
    decreases link,
{
    proof {
        lemma_inserted_heights(c.order(), link, key, value, replace);
    }
    match link {
        None => {
            let node = GTreeNode { key, value, left: None, right: None, balance: 0 };
            (Some(Box::new(node)), true, None)
        },
        Some(node) => {
            let mut node = node;
            let ghost was = *node;
            proof {
                lemma_present_split(
                    c.order(),
                    in_order(was.left),
                    was.entry(),
                    in_order(was.right),
                    key,
                );
            }
            let order: i32 = c.compare(key, node.key);
            if order < 0 {
                proof {
                    lemma_inserted_heights(c.order(), was.left, key, value, replace);
                    lemma_rebalanced(
                        inserted(c.order(), was.left, key, value, replace),
                        was.entry(),
                        was.right,
                    );
                }
                let (left, grew, before) = insert_below(c, node.left.take(), key, value, replace);
                node.left = left;
                if grew {
                    node.balance = node.balance - 1;
                }
                let top = node_balance(node);
                let higher: bool = grew && top.balance != 0;
                (Some(top), higher, before)
            } else if order > 0 {
                proof {
                    lemma_inserted_heights(c.order(), was.right, key, value, replace);
                    lemma_rebalanced(
                        was.left,
                        was.entry(),
                        inserted(c.order(), was.right, key, value, replace),
                    );
                }
                let (right, grew, before) = insert_below(c, node.right.take(), key, value, replace);
                node.right = right;
                if grew {
                    node.balance = node.balance + 1;
                }
                let top = node_balance(node);
                let higher: bool = grew && top.balance != 0;
                (Some(top), higher, before)
            } else {
                let before = Entry { key: node.key, value: node.value };
                node.value = value;
                if replace {
                    node.key = key;
                }
                proof {
                    lemma_joined(was.left, node.entry(), was.right);
                    assert(*node == joined(was.left, node.entry(), was.right));
                }
                (Some(node), false, Some(before))
            }
        },
    }
}

/// Take the first entry out. Returns the new link, whether it has lost height, and the entry.
fn remove_first(link: Option<Box<GTreeNode>>) -> (result: (Option<Box<GTreeNode>>, bool, Entry))
    requires
        link is Some,
        balanced(link),
    ensures
        result.0 == without_first(link),
        result.1 == (height(result.0) < height(link)),
        in_order(link).len() > 0,
        result.2 == in_order(link)[0],
    decreases link,
{
    proof {
        lemma_without_first(link);
    }
    match link {
        None => (None, false, Entry { key: 0, value: 0 }),
        Some(node) => {
            let mut node = node;
            let ghost was = *node;
            let left = node.left.take();
            if left.is_none() {
                let first = Entry { key: node.key, value: node.value };
                assert(in_order(was.left).len() == 0);
                assert(height(was.left) == 0);
                (node.right, true, first)
            } else {
                proof {
                    lemma_without_first(was.left);
                    lemma_rebalanced(without_first(was.left), was.entry(), was.right);
                }
                let (left, shrank, first) = remove_first(left);
                node.left = left;
                if shrank {
                    node.balance = node.balance + 1;
                }
                let top = node_balance(node);
                let lower: bool = shrank && top.balance == 0;
                (Some(top), lower, first)
            }
        },
    }
}

/// Take a node out from the top of its subtrees. Returns the new link and whether it is lower.
fn remove_top(node: Box<GTreeNode>) -> (result: (Option<Box<GTreeNode>>, bool))
    requires
        balanced(Some(node)),
    ensures
        result.0 == without_top(*node),
        result.1 == (height(result.0) < height(Some(node))),
{
    let mut node = node;
    let ghost was = *node;
    let left = node.left.take();
    let right = node.right.take();
    assert(balanced(was.left) && balanced(was.right));
    if left.is_none() {
        assert(height(was.left) == 0);
        (right, true)
    } else if right.is_none() {
        assert(height(was.right) == 0);
        (left, true)
    } else {
        proof {
            lemma_without_first(was.right);
            lemma_rebalanced(was.left, in_order(was.right)[0], without_first(was.right));
        }
        let (rest, shrank, first) = remove_first(right);
        node.left = left;
        node.right = rest;
        node.key = first.key;
        node.value = first.value;
        if shrank {
            node.balance = node.balance - 1;
        }
        let top = node_balance(node);
        let lower: bool = shrank && top.balance == 0;
        (Some(top), lower)
    }
}

/// Remove below a link. Returns the new link, whether it has lost height, and the removed entry.
#[verifier::rlimit(30)]
fn remove_below<C: KeyCompare>(c: &C, link: Option<Box<GTreeNode>>, key: GPointer) -> (result: (
    Option<Box<GTreeNode>>,
    bool,
    Option<Entry>,
))
    requires
        c.usable(),
        total_preorder(c.order()),
        balanced(link),
        sorted(c.order(), in_order(link)),
    ensures
        result.0 == removed(c.order(), link, key),
        result.1 == (height(result.0) < height(link)),
        result.2 == (if present(c.order(), in_order(link), key) {
            Some(in_order(link)[rank(c.order(), in_order(link), key)])
        } else {
            None
        }),
    decreases link,
{
    proof {
        lemma_removed_heights(c.order(), link, key);
    }
    match link {
        None => (None, false, None),
        Some(node) => {
            let mut node = node;
            let ghost was = *node;
            proof {
                lemma_present_split(
                    c.order(),
                    in_order(was.left),
                    was.entry(),
                    in_order(was.right),
                    key,
                );
            }
            let order: i32 = c.compare(key, node.key);
            if order < 0 {
                proof {
                    lemma_removed_heights(c.order(), was.left, key);
                    lemma_rebalanced(removed(c.order(), was.left, key), was.entry(), was.right);
                }
                let (left, shrank, before) = remove_below(c, node.left.take(), key);
                node.left = left;
                if shrank {
                    node.balance = node.balance + 1;
                }
                let top = node_balance(node);
                let lower: bool = shrank && top.balance == 0;
                (Some(top), lower, before)
            } else if order > 0 {
                proof {
                    lemma_removed_heights(c.order(), was.right, key);
                    lemma_rebalanced(was.left, was.entry(), removed(c.order(), was.right, key));
                }
                let (right, shrank, before) = remove_below(c, node.right.take(), key);
                node.right = right;
                if shrank {
                    node.balance = node.balance - 1;
                }
                let top = node_balance(node);
                let lower: bool = shrank && top.balance == 0;
                (Some(top), lower, before)
            } else {
                let before = Entry { key: node.key, value: node.value };
                let (rest, lower) = remove_top(node);
                (rest, lower, Some(before))
            }
        },
    }
}

proof fn lemma_nodes(t: Link)
    ensures
        nodes_in_order(t).len() == in_order(t).len(),
        forall|i: int|
            0 <= i < in_order(t).len() ==> (#[trigger] nodes_in_order(t)[i]).entry() == in_order(
                t,
            )[i],
    decreases t,
{
    if let Some(n) = t {
        lemma_nodes(n.left);
        lemma_nodes(n.right);
    }
}

/// The rank of a key that is in the sequence.
proof fn lemma_rank_of(c: KeyOrder, s: Seq<Entry>, i: int)
    requires
        total_preorder(c),
        sorted(c, s),
        0 <= i < s.len(),
    ensures
        rank(c, s, s[i].key) == i,
        rank_after(c, s, s[i].key) == i + 1,
        present(c, s, s[i].key),
{
    reveal(sorted);
    let key = s[i].key;
    assert forall|j: int| 0 <= j < i implies c(key, (#[trigger] s[j]).key) > 0 by {
        assert(c(s[j].key, s[i].key) < 0);
    }
    lemma_rank_is(c, s, key, i);
    lemma_rank_after_is(c, s, key, i + 1);
}

fn find_below<'a, C: KeyCompare>(c: &C, link: &'a Option<Box<GTreeNode>>, key: GPointer) -> (found:
    Option<&'a GTreeNode>)
    requires
        c.usable(),
        total_preorder(c.order()),
        sorted(c.order(), in_order(*link)),
    ensures
        found is Some == present(c.order(), in_order(*link), key),
        found matches Some(node) ==> *node == nodes_in_order(*link)[rank(
            c.order(),
            in_order(*link),
            key,
        )],
    decreases *link,
{
    match link {
        None => None,
        Some(node) => {
            proof {
                lemma_present_split(
                    c.order(),
                    in_order(node.left),
                    node.entry(),
                    in_order(node.right),
                    key,
                );
                lemma_rank_split(c.order(), in_order(node.left), node.entry(), in_order(node.right), key);
                lemma_rank_range(c.order(), in_order(node.left), key);
                lemma_rank_range(c.order(), in_order(node.right), key);
                lemma_nodes(node.left);
                lemma_nodes(node.right);
            }
            let order: i32 = c.compare(key, node.key);
            if order == 0 {
                Some(&**node)
            } else if order < 0 {
                find_below(c, &node.left, key)
            } else {
                find_below(c, &node.right, key)
            }
        },
    }
}

fn lower_bound_below<'a, C: KeyCompare>(
    c: &C,
    link: &'a Option<Box<GTreeNode>>,
    key: GPointer,
) -> (found: Option<&'a GTreeNode>)
    requires
        c.usable(),
        total_preorder(c.order()),
        sorted(c.order(), in_order(*link)),
    ensures
        found is Some == (rank(c.order(), in_order(*link), key) < in_order(*link).len()),
        found matches Some(node) ==> *node == nodes_in_order(*link)[rank(
            c.order(),
            in_order(*link),
            key,
        )],
    decreases *link,
{
    match link {
        None => None,
        Some(node) => {
            proof {
                lemma_rank_split(c.order(), in_order(node.left), node.entry(), in_order(node.right), key);
                lemma_rank_range(c.order(), in_order(node.left), key);
                lemma_rank_range(c.order(), in_order(node.right), key);
                lemma_nodes(node.left);
                lemma_nodes(node.right);
            }
            let order: i32 = c.compare(key, node.key);
            if order <= 0 {
                match lower_bound_below(c, &node.left, key) {
                    Some(first) => Some(first),
                    None => Some(&**node),
                }
            } else {
                lower_bound_below(c, &node.right, key)
            }
        },
    }
}

fn upper_bound_below<'a, C: KeyCompare>(
    c: &C,
    link: &'a Option<Box<GTreeNode>>,
    key: GPointer,
) -> (found: Option<&'a GTreeNode>)
    requires
        c.usable(),
        total_preorder(c.order()),
        sorted(c.order(), in_order(*link)),
    ensures
        found is Some == (rank_after(c.order(), in_order(*link), key) < in_order(*link).len()),
        found matches Some(node) ==> *node == nodes_in_order(*link)[rank_after(
            c.order(),
            in_order(*link),
            key,
        )],
    decreases *link,
{
    match link {
        None => None,
        Some(node) => {
            proof {
                lemma_rank_split(c.order(), in_order(node.left), node.entry(), in_order(node.right), key);
                lemma_rank_range(c.order(), in_order(node.left), key);
                lemma_rank_range(c.order(), in_order(node.right), key);
                lemma_nodes(node.left);
                lemma_nodes(node.right);
            }
            let order: i32 = c.compare(key, node.key);
            if order < 0 {
                match upper_bound_below(c, &node.left, key) {
                    Some(first) => Some(first),
                    None => Some(&**node),
                }
            } else {
                upper_bound_below(c, &node.right, key)
            }
        },
    }
}

/// The last node that sorts before `key`.
fn last_before<'a, C: KeyCompare>(c: &C, link: &'a Option<Box<GTreeNode>>, key: GPointer) -> (found:
    Option<&'a GTreeNode>)
    requires
        c.usable(),
        total_preorder(c.order()),
        sorted(c.order(), in_order(*link)),
    ensures
        found is Some == (rank(c.order(), in_order(*link), key) > 0),
        found matches Some(node) ==> *node == nodes_in_order(*link)[rank(
            c.order(),
            in_order(*link),
            key,
        ) - 1],
    decreases *link,
{
    match link {
        None => None,
        Some(node) => {
            proof {
                lemma_rank_split(c.order(), in_order(node.left), node.entry(), in_order(node.right), key);
                lemma_rank_range(c.order(), in_order(node.left), key);
                lemma_rank_range(c.order(), in_order(node.right), key);
                lemma_nodes(node.left);
                lemma_nodes(node.right);
            }
            let order: i32 = c.compare(key, node.key);
            if order <= 0 {
                last_before(c, &node.left, key)
            } else {
                match last_before(c, &node.right, key) {
                    Some(last) => Some(last),
                    None => Some(&**node),
                }
            }
        },
    }
}

/// A search goes left where the answer is negative and right where it is positive, and ends at
/// the first node on which it is zero.
pub open spec fn searches<F: Fn(GPointer, GPointer) -> i32>(
    search_func: F,
    t: Link,
    data: GPointer,
    found: Option<GTreeNode>,
) -> bool
    decreases t,
{
    match t {
        None => found is None,
        Some(n) => exists|order: i32| #[trigger]
            search_func.ensures((n.key, data), order) && if order == 0 {
                found == Some(*n)
            } else if order < 0 {
                searches(search_func, n.left, data, found)
            } else {
                searches(search_func, n.right, data, found)
            },
    }
}

fn node_search<'a, F: Fn(GPointer, GPointer) -> i32>(
    link: &'a Option<Box<GTreeNode>>,
    search_func: &F,
    data: GPointer,
) -> (found: Option<&'a GTreeNode>)
    requires
        forall|a: GPointer, b: GPointer| #[trigger] search_func.requires((a, b)),
    ensures
        searches(
            *search_func,
            *link,
            data,
            match found {
                Some(node) => Some(*node),
                None => None,
            },
        ),
    decreases *link,
{
    match link {
        None => None,
        Some(node) => {
            let order: i32 = search_func(node.key, data);
            if order == 0 {
                Some(&**node)
            } else if order < 0 {
                node_search(&node.left, search_func, data)
            } else {
                node_search(&node.right, search_func, data)
            }
        },
    }
}

/// One call of a walk's function on an entry.
pub open spec fn visit<U, F: Fn(GPointer, GPointer, U) -> (U, bool)>(func: F) -> spec_fn(
    Entry,
    U,
    U,
    bool,
) -> bool {
    |entry: Entry, before: U, after: U, stop: bool|
        func.ensures((entry.key, entry.value, before), (after, stop))
}

/// One call of a walk's function on a node.
pub open spec fn visit_node<U, F: Fn(&GTreeNode, U) -> (U, bool)>(func: F) -> spec_fn(
    GTreeNode,
    U,
    U,
    bool,
) -> bool {
    |node: GTreeNode, before: U, after: U, stop: bool|
        func.ensures((&node, before), (after, stop))
}

fn node_pre_order<U, F: Fn(GPointer, GPointer, U) -> (U, bool)>(
    link: &Option<Box<GTreeNode>>,
    func: &F,
    data: U,
) -> (result: (U, bool))
    requires
        forall|key: GPointer, value: GPointer, data: U| #[trigger]
            func.requires((key, value, data)),
    ensures
        crate::callback::walks(visit(*func), pre_order(*link), data, result.0, result.1),
    decreases *link,
{
    match link {
        None => (data, false),
        Some(node) => {
            let ghost step = visit::<U, F>(*func);
            let ghost first = seq![node.entry()];
            let (here, stop) = func(node.key, node.value, data);
            proof {
                crate::callback::lemma_walks_one(step, node.entry(), data, here, stop);
                if stop {
                    crate::callback::lemma_walks_stopped(
                        step,
                        first,
                        pre_order(node.left),
                        data,
                        here,
                    );
                    crate::callback::lemma_walks_stopped(
                        step,
                        first + pre_order(node.left),
                        pre_order(node.right),
                        data,
                        here,
                    );
                }
            }
            if stop {
                return (here, true);
            }
            let ghost at_node = here;
            let (here, stop) = node_pre_order(&node.left, func, here);
            proof {
                crate::callback::lemma_walks_on(
                    step,
                    first,
                    pre_order(node.left),
                    data,
                    at_node,
                    here,
                    stop,
                );
                if stop {
                    crate::callback::lemma_walks_stopped(
                        step,
                        first + pre_order(node.left),
                        pre_order(node.right),
                        data,
                        here,
                    );
                }
            }
            if stop {
                return (here, true);
            }
            let ghost after_left = here;
            let (here, stop) = node_pre_order(&node.right, func, here);
            proof {
                crate::callback::lemma_walks_on(
                    step,
                    first + pre_order(node.left),
                    pre_order(node.right),
                    data,
                    after_left,
                    here,
                    stop,
                );
            }
            (here, stop)
        },
    }
}

fn node_in_order<U, F: Fn(GPointer, GPointer, U) -> (U, bool)>(
    link: &Option<Box<GTreeNode>>,
    func: &F,
    data: U,
) -> (result: (U, bool))
    requires
        forall|key: GPointer, value: GPointer, data: U| #[trigger]
            func.requires((key, value, data)),
    ensures
        crate::callback::walks(visit(*func), in_order(*link), data, result.0, result.1),
    decreases *link,
{
    match link {
        None => (data, false),
        Some(node) => {
            let ghost step = visit::<U, F>(*func);
            let ghost left = in_order(node.left);
            let ghost right = in_order(node.right);
            let ghost entry = node.entry();
            let (here, stop) = node_in_order(&node.left, func, data);
            proof {
                if stop {
                    crate::callback::lemma_walks_stopped(
                        step,
                        left,
                        seq![entry] + right,
                        data,
                        here,
                    );
                    assert(left + (seq![entry] + right) =~= left.push(entry) + right);
                }
            }
            if stop {
                return (here, true);
            }
            let ghost after_left = here;
            let (here, stop) = func(node.key, node.value, here);
            proof {
                crate::callback::lemma_walks_one(step, entry, after_left, here, stop);
                crate::callback::lemma_walks_on(
                    step,
                    left,
                    seq![entry],
                    data,
                    after_left,
                    here,
                    stop,
                );
                assert(left + seq![entry] =~= left.push(entry));
                if stop {
                    crate::callback::lemma_walks_stopped(step, left.push(entry), right, data, here);
                }
            }
            if stop {
                return (here, true);
            }
            let ghost at_node = here;
            let (here, stop) = node_in_order(&node.right, func, here);
            proof {
                crate::callback::lemma_walks_on(
                    step,
                    left.push(entry),
                    right,
                    data,
                    at_node,
                    here,
                    stop,
                );
            }
            (here, stop)
        },
    }
}

fn node_post_order<U, F: Fn(GPointer, GPointer, U) -> (U, bool)>(
    link: &Option<Box<GTreeNode>>,
    func: &F,
    data: U,
) -> (result: (U, bool))
    requires
        forall|key: GPointer, value: GPointer, data: U| #[trigger]
            func.requires((key, value, data)),
    ensures
        crate::callback::walks(visit(*func), post_order(*link), data, result.0, result.1),
    decreases *link,
{
    match link {
        None => (data, false),
        Some(node) => {
            let ghost step = visit::<U, F>(*func);
            let ghost left = post_order(node.left);
            let ghost right = post_order(node.right);
            let ghost entry = node.entry();
            let (here, stop) = node_post_order(&node.left, func, data);
            proof {
                if stop {
                    crate::callback::lemma_walks_stopped(step, left, right.push(entry), data, here);
                }
            }
            if stop {
                return (here, true);
            }
            let ghost after_left = here;
            let (here, stop) = node_post_order(&node.right, func, here);
            proof {
                crate::callback::lemma_walks_on(step, left, right, data, after_left, here, stop);
                if stop {
                    crate::callback::lemma_walks_stopped(
                        step,
                        left + right,
                        seq![entry],
                        data,
                        here,
                    );
                    assert(left + right + seq![entry] =~= left + right.push(entry));
                }
            }
            if stop {
                return (here, true);
            }
            let ghost after_right = here;
            let (here, stop) = func(node.key, node.value, here);
            proof {
                crate::callback::lemma_walks_one(step, entry, after_right, here, stop);
                crate::callback::lemma_walks_on(
                    step,
                    left + right,
                    seq![entry],
                    data,
                    after_right,
                    here,
                    stop,
                );
                assert(left + right + seq![entry] =~= left + right.push(entry));
            }
            (here, stop)
        },
    }
}

fn each_node<U, F: Fn(&GTreeNode, U) -> (U, bool)>(
    link: &Option<Box<GTreeNode>>,
    func: &F,
    data: U,
) -> (result: (U, bool))
    requires
        forall|node: &GTreeNode, data: U| #[trigger] func.requires((node, data)),
    ensures
        crate::callback::walks(visit_node(*func), nodes_in_order(*link), data, result.0, result.1),
    decreases *link,
{
    match link {
        None => (data, false),
        Some(node) => {
            let ghost step = visit_node::<U, F>(*func);
            let ghost left = nodes_in_order(node.left);
            let ghost right = nodes_in_order(node.right);
            let (here, stop) = each_node(&node.left, func, data);
            proof {
                if stop {
                    crate::callback::lemma_walks_stopped(
                        step,
                        left,
                        seq![**node] + right,
                        data,
                        here,
                    );
                    assert(left + (seq![**node] + right) =~= left.push(**node) + right);
                }
            }
            if stop {
                return (here, true);
            }
            let ghost after_left = here;
            let (here, stop) = func(&**node, here);
            proof {
                crate::callback::lemma_walks_one(step, **node, after_left, here, stop);
                crate::callback::lemma_walks_on(
                    step,
                    left,
                    seq![**node],
                    data,
                    after_left,
                    here,
                    stop,
                );
                assert(left + seq![**node] =~= left.push(**node));
                if stop {
                    crate::callback::lemma_walks_stopped(
                        step,
                        left.push(**node),
                        right,
                        data,
                        here,
                    );
                }
            }
            if stop {
                return (here, true);
            }
            let ghost at_node = here;
            let (here, stop) = each_node(&node.right, func, here);
            proof {
                crate::callback::lemma_walks_on(
                    step,
                    left.push(**node),
                    right,
                    data,
                    at_node,
                    here,
                    stop,
                );
            }
            (here, stop)
        },
    }
}

/// A balanced tree of `n` levels has at least `2^(n/2) - 1` nodes.
proof fn lemma_height_bound(t: Link)
    requires
        balanced(t),
    ensures
        vstd::arithmetic::power2::pow2(height(t) / 2) <= in_order(t).len() + 1,
    decreases t,
{
    vstd::arithmetic::power2::lemma2_to64();
    if let Some(n) = t {
        lemma_height_bound(n.left);
        lemma_height_bound(n.right);
        let h = height(t);
        if h >= 2 {
            let half = ((h - 2) / 2) as nat;
            assert(half == h / 2 - 1);
            vstd::arithmetic::power2::lemma_pow2_unfold(h / 2);
            if height(n.left) / 2 > half {
                vstd::arithmetic::power2::lemma_pow2_strictly_increases(half, height(n.left) / 2);
            }
            if height(n.right) / 2 > half {
                vstd::arithmetic::power2::lemma_pow2_strictly_increases(half, height(n.right) / 2);
            }
        }
    }
}

/// A balanced tree from keys to values, both addresses, sorted by a comparison of keys.
///
/// Destroy functions for keys and values are not held: the tree lists their due calls (see
/// [`Tree::take_notices`]).
pub struct Tree<C> {
    key_compare: C,
    order: Ghost<KeyOrder>,
    key_destroy: bool,
    value_destroy: bool,
    root: Option<Box<GTreeNode>>,
    nnodes: u32,
    notices: Vec<DestroyNotice>,
}

impl<C> View for Tree<C> {
    type V = Seq<Entry>;

    /// The entries in sorted key order.
    open spec fn view(&self) -> Seq<Entry> {
        in_order(self.root())
    }
}

impl<F: Fn(GPointer, GPointer) -> i32> Tree<Plain<F>> {
    /// An empty tree without destroy functions. The function computes a total preorder; where it
    /// matters which, [`Tree::new_with_order`] is told.
    pub fn new(key_compare_func: F) -> (tree: Self)
        requires
            exists|ord: KeyOrder| #[trigger]
                computes(key_compare_func, ord) && total_preorder(ord),
        ensures
            tree.wf(),
            tree.root() is None,
            tree@ == Seq::<Entry>::empty(),
            tree.key_compare().func == key_compare_func,
            computes(key_compare_func, tree.order()),
            total_preorder(tree.order()),
            !tree.destroys_keys(),
            !tree.destroys_values(),
            tree.notices() == Seq::<DestroyNotice>::empty(),
    {
        let ghost ord = choose|ord: KeyOrder| #[trigger]
            computes(key_compare_func, ord) && total_preorder(ord);
        Self::new_with_order(key_compare_func, Ghost(ord), false, false)
    }

    /// An empty tree whose comparison function computes `ord`; `key_destroy` and `value_destroy`
    /// say whether keys and values have destroy functions.
    pub fn new_with_order(
        key_compare_func: F,
        ord: Ghost<KeyOrder>,
        key_destroy: bool,
        value_destroy: bool,
    ) -> (tree: Self)
        requires
            computes(key_compare_func, ord@),
            total_preorder(ord@),
        ensures
            tree.wf(),
            tree.root() is None,
            tree@ == Seq::<Entry>::empty(),
            tree.key_compare() == (Plain { func: key_compare_func, ord }),
            tree.order() == ord@,
            tree.destroys_keys() == key_destroy,
            tree.destroys_values() == value_destroy,
            tree.notices() == Seq::<DestroyNotice>::empty(),
    {
        Self::with_compare(Plain { func: key_compare_func, ord }, key_destroy, value_destroy)
    }
}

impl<F: Fn(GPointer, GPointer, GPointer) -> i32> Tree<WithData<F>> {
    /// An empty tree without destroy functions, whose comparison is handed `key_compare_data`.
    pub fn new_with_data(key_compare_func: F, key_compare_data: GPointer) -> (tree: Self)
        requires
            exists|ord: KeyOrder| #[trigger]
                computes_with(key_compare_func, key_compare_data, ord) && total_preorder(ord),
        ensures
            tree.wf(),
            tree.root() is None,
            tree@ == Seq::<Entry>::empty(),
            tree.key_compare().func == key_compare_func,
            tree.key_compare().data == key_compare_data,
            computes_with(key_compare_func, key_compare_data, tree.order()),
            total_preorder(tree.order()),
            !tree.destroys_keys(),
            !tree.destroys_values(),
            tree.notices() == Seq::<DestroyNotice>::empty(),
    {
        Self::new_full(key_compare_func, key_compare_data, false, false)
    }

    /// An empty tree, whose comparison is handed `key_compare_data`; `key_destroy` and
    /// `value_destroy` say whether keys and values have destroy functions.
    pub fn new_full(
        key_compare_func: F,
        key_compare_data: GPointer,
        key_destroy: bool,
        value_destroy: bool,
    ) -> (tree: Self)
        requires
            exists|ord: KeyOrder| #[trigger]
                computes_with(key_compare_func, key_compare_data, ord) && total_preorder(ord),
        ensures
            tree.wf(),
            tree.root() is None,
            tree@ == Seq::<Entry>::empty(),
            tree.key_compare().func == key_compare_func,
            tree.key_compare().data == key_compare_data,
            computes_with(key_compare_func, key_compare_data, tree.order()),
            total_preorder(tree.order()),
            tree.destroys_keys() == key_destroy,
            tree.destroys_values() == value_destroy,
            tree.notices() == Seq::<DestroyNotice>::empty(),
    {
        let ghost ord = choose|ord: KeyOrder| #[trigger]
            computes_with(key_compare_func, key_compare_data, ord) && total_preorder(ord);
        Self::with_compare(
            WithData { func: key_compare_func, data: key_compare_data, ord: Ghost(ord) },
            key_destroy,
            value_destroy,
        )
    }
}

impl<C> Tree<C> {
    /// The tree of nodes.
    pub closed spec fn root(&self) -> Link {
        self.root
    }

    /// The comparison.
    pub closed spec fn key_compare(&self) -> C {
        self.key_compare
    }

    /// The order of the keys.
    pub closed spec fn order(&self) -> KeyOrder {
        self.order@
    }

    /// Whether keys have a destroy function.
    pub closed spec fn destroys_keys(&self) -> bool {
        self.key_destroy
    }

    /// Whether values have a destroy function.
    pub closed spec fn destroys_values(&self) -> bool {
        self.value_destroy
    }

    /// The calls of destroy functions that are due, in order.
    pub closed spec fn notices(&self) -> Seq<DestroyNotice> {
        self.notices@
    }

    /// The nodes in sorted key order.
    pub open spec fn nodes(&self) -> Seq<GTreeNode> {
        nodes_in_order(self.root())
    }

    /// The comparison and destroy settings are those of `other`.
    pub open spec fn same_setup(&self, other: &Self) -> bool {
        &&& self.key_compare() == other.key_compare()
        &&& self.order() == other.order()
        &&& self.destroys_keys() == other.destroys_keys()
        &&& self.destroys_values() == other.destroys_values()
    }

    /// The position of the first entry whose key does not sort before `key`.
    pub open spec fn rank(&self, key: GPointer) -> int {
        rank(self.order(), self@, key)
    }

    /// The position of the first entry whose key sorts after `key`.
    pub open spec fn rank_after(&self, key: GPointer) -> int {
        rank_after(self.order(), self@, key)
    }

    /// A key sorts with `key`.
    pub open spec fn has(&self, key: GPointer) -> bool {
        present(self.order(), self@, key)
    }
}

impl<C: KeyCompare> Tree<C> {
    /// The invariant of a tree.
    pub closed spec fn wf(&self) -> bool {
        &&& self.key_compare.usable()
        &&& self.order@ == self.key_compare.order()
        &&& total_preorder(self.order@)
        &&& balanced(self.root)
        &&& sorted(self.order@, in_order(self.root))
        &&& self.nnodes == in_order(self.root).len()
    }

    /// An empty tree with this comparison; `key_destroy` and `value_destroy` say whether keys and
    /// values have destroy functions.
    pub fn with_compare(key_compare: C, key_destroy: bool, value_destroy: bool) -> (tree: Self)
        requires
            key_compare.usable(),
            total_preorder(key_compare.order()),
        ensures
            tree.wf(),
            tree.root() is None,
            tree@ == Seq::<Entry>::empty(),
            tree.key_compare() == key_compare,
            tree.order() == key_compare.order(),
            tree.destroys_keys() == key_destroy,
            tree.destroys_values() == value_destroy,
            tree.notices() == Seq::<DestroyNotice>::empty(),
    {
        proof {
            reveal(sorted);
        }
        Tree {
            order: Ghost(key_compare.order()),
            key_compare,
            key_destroy,
            value_destroy,
            root: None,
            nnodes: 0,
            notices: Vec::new(),
        }
    }

    /// Hand over the calls of destroy functions that are due; none is due after it.
    pub fn take_notices(&mut self) -> (due: Vec<DestroyNotice>)
        requires
            old(self).wf(),
        ensures
            due@ == old(self).notices(),
            final(self).notices() == Seq::<DestroyNotice>::empty(),
            final(self).wf(),
            final(self).root() == old(self).root(),
            final(self).same_setup(old(self)),
    {
        let mut due: Vec<DestroyNotice> = Vec::new();
        core::mem::swap(&mut due, &mut self.notices);
        due
    }

    /// Put `value` in under `key`. Returns whether there was room.
    fn insert_replace_internal(&mut self, key: GPointer, value: GPointer, replace: bool) -> (done:
        bool)
        requires
            old(self).wf(),
        ensures
            final(self).wf(),
            final(self).same_setup(old(self)),
            done == (old(self).has(key) || old(self)@.len() < u32::MAX),
            done ==> {
                &&& final(self).root() == inserted(
                    old(self).order(),
                    old(self).root(),
                    key,
                    value,
                    replace,
                )
                &&& final(self)@ == entries_with(
                    old(self).order(),
                    old(self)@,
                    key,
                    value,
                    replace,
                )
                &&& final(self).has(key)
                &&& final(self).rank(key) == old(self).rank(key)
            },
            !done ==> final(self).root() == old(self).root(),
            final(self).notices() == old(self).notices() + (if old(self).has(key) {
                let before = old(self)@[old(self).rank(key)];
                crate::notify::value_notice(old(self).destroys_values(), before.value)
                    + crate::notify::key_notice(
                    old(self).destroys_keys(),
                    if replace {
                        before.key
                    } else {
                        key
                    },
                )
            } else {
                Seq::empty()
            }),
    {
        proof {
            lemma_inserted_heights(self.order@, self.root, key, value, replace);
            lemma_inserted_entries(self.order@, self.root, key, value, replace);
            lemma_rank_range(self.order@, self@, key);
            lemma_entries_with_sorted(self.order@, self@, key, value, replace);
        }
        if self.nnodes == u32::MAX && find_below(&self.key_compare, &self.root, key).is_none() {
            assert(self.notices@ + Seq::<DestroyNotice>::empty() =~= self.notices@);
            return false;
        }
        let (root, _, before) = insert_below(
            &self.key_compare,
            self.root.take(),
            key,
            value,
            replace,
        );
        self.root = root;
        match before {
            None => {
                self.nnodes = self.nnodes + 1;
            },
            Some(before) => {
                notify_value(&mut self.notices, self.value_destroy, before.value);
                if replace {
                    notify_key(&mut self.notices, self.key_destroy, before.key);
                } else {
                    notify_key(&mut self.notices, self.key_destroy, key);
                }
            },
        }
        assert(self.notices@ =~= old(self).notices@ + (if old(self).has(key) {
            let before = old(self)@[old(self).rank(key)];
            crate::notify::value_notice(old(self).destroys_values(), before.value)
                + crate::notify::key_notice(
                old(self).destroys_keys(),
                if replace {
                    before.key
                } else {
                    key
                },
            )
        } else {
            Seq::empty()
        }));
        true
    }

    /// Put `value` in under `key`. Where the tree has such a key it stays, takes the new value,
    /// and the old value and then `key` are due for destruction.
    pub fn insert(&mut self, key: GPointer, value: GPointer)
        requires
            old(self).wf(),
            old(self).has(key) || old(self)@.len() < u32::MAX,
        ensures
            final(self).wf(),
            final(self).same_setup(old(self)),
            final(self).root() == inserted(
                old(self).order(),
                old(self).root(),
                key,
                value,
                false,
            ),
            final(self)@ == entries_with(old(self).order(), old(self)@, key, value, false),
            final(self).notices() == old(self).notices() + (if old(self).has(key) {
                crate::notify::value_notice(
                    old(self).destroys_values(),
                    old(self)@[old(self).rank(key)].value,
                ) + crate::notify::key_notice(old(self).destroys_keys(), key)
            } else {
                Seq::empty()
            }),
    {
        let _ = self.insert_replace_internal(key, value, false);
    }

    /// As [`Tree::insert`], and returns the node; where a new node would be one too many, returns
    /// `None` and leaves the tree as it is.
    pub fn insert_node(&mut self, key: GPointer, value: GPointer) -> (node: Option<&GTreeNode>)
        requires
            old(self).wf(),
        ensures
            final(self).wf(),
            final(self).same_setup(old(self)),
            node is Some == (old(self).has(key) || old(self)@.len() < u32::MAX),
            node matches Some(n) ==> {
                &&& final(self).root() == inserted(
                    old(self).order(),
                    old(self).root(),
                    key,
                    value,
                    false,
                )
                &&& final(self)@ == entries_with(
                    old(self).order(),
                    old(self)@,
                    key,
                    value,
                    false,
                )
                &&& *n == final(self).nodes()[old(self).rank(key)]
            },
            node is None ==> final(self).root() == old(self).root(),
            final(self).notices() == old(self).notices() + (if old(self).has(key) {
                crate::notify::value_notice(
                    old(self).destroys_values(),
                    old(self)@[old(self).rank(key)].value,
                ) + crate::notify::key_notice(old(self).destroys_keys(), key)
            } else {
                Seq::empty()
            }),
    {
        if self.insert_replace_internal(key, value, false) {
            find_below(&self.key_compare, &self.root, key)
        } else {
            None
        }
    }

    /// Put `value` in under `key` itself. Where the tree has such a key, the old value and then
    /// the old key are due for destruction.
    pub fn replace(&mut self, key: GPointer, value: GPointer)
        requires
            old(self).wf(),
            old(self).has(key) || old(self)@.len() < u32::MAX,
        ensures
            final(self).wf(),
            final(self).same_setup(old(self)),
            final(self).root() == inserted(
                old(self).order(),
                old(self).root(),
                key,
                value,
                true,
            ),
            final(self)@ == entries_with(old(self).order(), old(self)@, key, value, true),
            final(self).notices() == old(self).notices() + (if old(self).has(key) {
                crate::notify::value_notice(
                    old(self).destroys_values(),
                    old(self)@[old(self).rank(key)].value,
                ) + crate::notify::key_notice(
                    old(self).destroys_keys(),
                    old(self)@[old(self).rank(key)].key,
                )
            } else {
                Seq::empty()
            }),
    {
        let _ = self.insert_replace_internal(key, value, true);
    }

    /// As [`Tree::replace`], and returns the node; where a new node would be one too many,
    /// returns `None` and leaves the tree as it is.
    pub fn replace_node(&mut self, key: GPointer, value: GPointer) -> (node: Option<&GTreeNode>)
        requires
            old(self).wf(),
        ensures
            final(self).wf(),
            final(self).same_setup(old(self)),
            node is Some == (old(self).has(key) || old(self)@.len() < u32::MAX),
            node matches Some(n) ==> {
                &&& final(self).root() == inserted(
                    old(self).order(),
                    old(self).root(),
                    key,
                    value,
                    true,
                )
                &&& final(self)@ == entries_with(
                    old(self).order(),
                    old(self)@,
                    key,
                    value,
                    true,
                )
                &&& *n == final(self).nodes()[old(self).rank(key)]
            },
            node is None ==> final(self).root() == old(self).root(),
            final(self).notices() == old(self).notices() + (if old(self).has(key) {
                crate::notify::value_notice(
                    old(self).destroys_values(),
                    old(self)@[old(self).rank(key)].value,
                ) + crate::notify::key_notice(
                    old(self).destroys_keys(),
                    old(self)@[old(self).rank(key)].key,
                )
            } else {
                Seq::empty()
            }),
    {
        if self.insert_replace_internal(key, value, true) {
            find_below(&self.key_compare, &self.root, key)
        } else {
            None
        }
    }

    /// The value under `key`, or 0 where the tree has no such key.
    pub fn lookup(&self, key: GPointer) -> (value: GPointer)
        requires
            self.wf(),
        ensures
            value == (if self.has(key) {
                self@[self.rank(key)].value
            } else {
                0
            }),
    {
        proof {
            lemma_nodes(self.root);
            lemma_rank_range(self.order@, self@, key);
        }
        match self.lookup_node(key) {
            Some(node) => node.value,
            None => 0,
        }
    }

    /// The node whose key sorts with `key`.
    pub fn lookup_node(&self, key: GPointer) -> (node: Option<&GTreeNode>)
        requires
            self.wf(),
        ensures
            node is Some == self.has(key),
            node matches Some(n) ==> *n == self.nodes()[self.rank(key)] && n.entry()
                == self@[self.rank(key)],
    {
        proof {
            lemma_nodes(self.root);
            lemma_rank_range(self.order@, self@, key);
        }
        find_below(&self.key_compare, &self.root, key)
    }

    /// The key that sorts with `lookup_key` and its value, written where the caller asks for
    /// them. Returns whether there is one; nothing is written where there is none.
    pub fn lookup_extended(
        &self,
        lookup_key: GPointer,
        orig_key: Option<&mut GPointer>,
        value: Option<&mut GPointer>,
    ) -> (found: bool)
        requires
            self.wf(),
        ensures
            found == self.has(lookup_key),
            orig_key matches Some(k) ==> *final(k) == (if found {
                self@[self.rank(lookup_key)].key
            } else {
                *k
            }),
            value matches Some(v) ==> *final(v) == (if found {
                self@[self.rank(lookup_key)].value
            } else {
                *v
            }),
    {
        proof {
            lemma_nodes(self.root);
            lemma_rank_range(self.order@, self@, lookup_key);
        }
        match find_below(&self.key_compare, &self.root, lookup_key) {
            Some(node) => {
                if let Some(k) = orig_key {
                    *k = node.key;
                }
                if let Some(v) = value {
                    *v = node.value;
                }
                true
            },
            None => false,
        }
    }

    fn remove_internal(&mut self, key: GPointer, steal: bool) -> (done: bool)
        requires
            old(self).wf(),
        ensures
            final(self).wf(),
            final(self).same_setup(old(self)),
            done == old(self).has(key),
            final(self).root() == removed(old(self).order(), old(self).root(), key),
            final(self)@ == entries_without(old(self).order(), old(self)@, key),
            !done ==> final(self).root() == old(self).root(),
            final(self).notices() == old(self).notices() + (if done && !steal {
                let before = old(self)@[old(self).rank(key)];
                crate::notify::key_notice(old(self).destroys_keys(), before.key)
                    + crate::notify::value_notice(old(self).destroys_values(), before.value)
            } else {
                Seq::empty()
            }),
    {
        proof {
            lemma_removed_heights(self.order@, self.root, key);
            lemma_removed_entries(self.order@, self.root, key);
            lemma_entries_without_sorted(self.order@, self@, key);
            lemma_rank_range(self.order@, self@, key);
        }
        let (root, _, before) = remove_below(&self.key_compare, self.root.take(), key);
        self.root = root;
        match before {
            None => {
                assert(self.notices@ + Seq::<DestroyNotice>::empty() =~= self.notices@);
                false
            },
            Some(before) => {
                if !steal {
                    notify_key(&mut self.notices, self.key_destroy, before.key);
                    notify_value(&mut self.notices, self.value_destroy, before.value);
                }
                self.nnodes = self.nnodes - 1;
                assert(self.notices@ =~= old(self).notices@ + (if !steal {
                    let before = old(self)@[old(self).rank(key)];
                    crate::notify::key_notice(old(self).destroys_keys(), before.key)
                        + crate::notify::value_notice(old(self).destroys_values(), before.value)
                } else {
                    Seq::empty()
                }));
                true
            },
        }
    }

    /// Remove the entry whose key sorts with `key`; its key and then its value are due for
    /// destruction. Returns whether there was one.
    pub fn remove(&mut self, key: GPointer) -> (done: bool)
        requires
            old(self).wf(),
        ensures
            final(self).wf(),
            final(self).same_setup(old(self)),
            done == old(self).has(key),
            final(self).root() == removed(old(self).order(), old(self).root(), key),
            final(self)@ == entries_without(old(self).order(), old(self)@, key),
            !done ==> final(self).root() == old(self).root(),
            final(self).notices() == old(self).notices() + (if done {
                let before = old(self)@[old(self).rank(key)];
                crate::notify::key_notice(old(self).destroys_keys(), before.key)
                    + crate::notify::value_notice(old(self).destroys_values(), before.value)
            } else {
                Seq::empty()
            }),
    {
        self.remove_internal(key, false)
    }

    /// Remove the entry whose key sorts with `key`; nothing is destroyed. Returns whether there
    /// was one.
    pub fn steal(&mut self, key: GPointer) -> (done: bool)
        requires
            old(self).wf(),
        ensures
            final(self).wf(),
            final(self).same_setup(old(self)),
            done == old(self).has(key),
            final(self).root() == removed(old(self).order(), old(self).root(), key),
            final(self)@ == entries_without(old(self).order(), old(self)@, key),
            !done ==> final(self).root() == old(self).root(),
            final(self).notices() == old(self).notices(),
    {
        let done: bool = self.remove_internal(key, true);
        assert(self.notices@ =~= old(self).notices@);
        done
    }

    /// Remove all entries; they are due for destruction in sorted key order, each key before its
    /// value.
    pub fn remove_all(&mut self)
        requires
            old(self).wf(),
        ensures
            final(self).wf(),
            final(self).same_setup(old(self)),
            final(self).root() is None,
            final(self).notices() == old(self).notices() + crate::notify::entry_notices(
                old(self)@,
                old(self).destroys_keys(),
                old(self).destroys_values(),
            ),
    {
        let root = self.root.take();
        notify_all(&root, self.key_destroy, self.value_destroy, &mut self.notices);
        self.nnodes = 0;
        proof {
            reveal(sorted);
        }
    }

    /// The end of a tree: all entries leave it. Returns all due calls.
    pub fn release(self) -> (due: Vec<DestroyNotice>)
        requires
            self.wf(),
        ensures
            due@ == self.notices() + crate::notify::entry_notices(
                self@,
                self.destroys_keys(),
                self.destroys_values(),
            ),
    {
        let mut tree = self;
        tree.remove_all();
        tree.notices
    }

    /// Call `func` with each key, its value and the data so far, in sorted key order; the data is
    /// what the call before returned, `user_data` at first. A call may end the walk. Returns the
    /// last data.
    pub fn foreach<U, F: Fn(GPointer, GPointer, U) -> (U, bool)>(&self, func: F, user_data: U) -> (
        result: U)
        requires
            self.wf(),
            forall|key: GPointer, value: GPointer, data: U| #[trigger]
                func.requires((key, value, data)),
        ensures
            exists|stopped: bool| #[trigger]
                crate::callback::walks(visit(func), self@, user_data, result, stopped),
    {
        let (result, stopped) = node_in_order(&self.root, &func, user_data);
        assert(crate::callback::walks(visit(func), self@, user_data, result, stopped));
        result
    }

    /// As [`Tree::foreach`], with nodes.
    pub fn foreach_node<U, F: Fn(&GTreeNode, U) -> (U, bool)>(&self, func: F, user_data: U) -> (
        result: U)
        requires
            self.wf(),
            forall|node: &GTreeNode, data: U| #[trigger] func.requires((node, data)),
        ensures
            exists|stopped: bool| #[trigger]
                crate::callback::walks(visit_node(func), self.nodes(), user_data, result, stopped),
    {
        let (result, stopped) = each_node(&self.root, &func, user_data);
        assert(crate::callback::walks(
            visit_node(func),
            self.nodes(),
            user_data,
            result,
            stopped,
        ));
        result
    }

    /// As [`Tree::foreach`], in the given order. [`TraverseType::LevelOrder`] visits nothing.
    pub fn traverse<U, F: Fn(GPointer, GPointer, U) -> (U, bool)>(
        &self,
        traverse_func: F,
        traverse_type: TraverseType,
        user_data: U,
    ) -> (result: U)
        requires
            self.wf(),
            forall|key: GPointer, value: GPointer, data: U| #[trigger]
                traverse_func.requires((key, value, data)),
        ensures
            exists|stopped: bool| #[trigger]
                crate::callback::walks(
                    visit(traverse_func),
                    walk_order(self.root(), traverse_type),
                    user_data,
                    result,
                    stopped,
                ),
    {
        let (result, stopped) = match traverse_type {
            TraverseType::PreOrder => node_pre_order(&self.root, &traverse_func, user_data),
            TraverseType::InOrder => node_in_order(&self.root, &traverse_func, user_data),
            TraverseType::PostOrder => node_post_order(&self.root, &traverse_func, user_data),
            TraverseType::LevelOrder => (user_data, false),
        };
        assert(crate::callback::walks(
            visit(traverse_func),
            walk_order(self.root(), traverse_type),
            user_data,
            result,
            stopped,
        ));
        result
    }

    /// The value of the node that a search finds, or 0. `search_func` is called with the key of a
    /// node and `user_data`, and says by a negative, zero or positive answer whether to look to
    /// the left of the node, to take it, or to look to the right.
    pub fn search<F: Fn(GPointer, GPointer) -> i32>(&self, search_func: F, user_data: GPointer) -> (
        value: GPointer)
        requires
            self.wf(),
            forall|a: GPointer, b: GPointer| #[trigger] search_func.requires((a, b)),
        ensures
            exists|found: Option<GTreeNode>| #[trigger]
                searches(search_func, self.root(), user_data, found) && value == (match found {
                    Some(node) => node.value,
                    None => 0,
                }),
    {
        match node_search(&self.root, &search_func, user_data) {
            Some(node) => {
                assert(searches(search_func, self.root(), user_data, Some(*node)));
                node.value
            },
            None => {
                assert(searches(search_func, self.root(), user_data, None));
                0
            },
        }
    }

    /// The node that a search finds; see [`Tree::search`].
    pub fn search_node<F: Fn(GPointer, GPointer) -> i32>(
        &self,
        search_func: F,
        user_data: GPointer,
    ) -> (node: Option<&GTreeNode>)
        requires
            self.wf(),
            forall|a: GPointer, b: GPointer| #[trigger] search_func.requires((a, b)),
        ensures
            searches(
                search_func,
                self.root(),
                user_data,
                match node {
                    Some(n) => Some(*n),
                    None => None,
                },
            ),
    {
        node_search(&self.root, &search_func, user_data)
    }

    /// The first node whose key does not sort before `key`.
    pub fn lower_bound(&self, key: GPointer) -> (node: Option<&GTreeNode>)
        requires
            self.wf(),
        ensures
            node is Some == (self.rank(key) < self@.len()),
            node matches Some(n) ==> *n == self.nodes()[self.rank(key)] && n.entry()
                == self@[self.rank(key)],
    {
        proof {
            lemma_nodes(self.root);
            lemma_rank_range(self.order@, self@, key);
        }
        lower_bound_below(&self.key_compare, &self.root, key)
    }

    /// The first node whose key sorts after `key`.
    pub fn upper_bound(&self, key: GPointer) -> (node: Option<&GTreeNode>)
        requires
            self.wf(),
        ensures
            node is Some == (self.rank_after(key) < self@.len()),
            node matches Some(n) ==> *n == self.nodes()[self.rank_after(key)] && n.entry()
                == self@[self.rank_after(key)],
    {
        proof {
            lemma_nodes(self.root);
            lemma_rank_range(self.order@, self@, key);
        }
        upper_bound_below(&self.key_compare, &self.root, key)
    }

    /// The number of nodes on the longest way down.
    pub fn height(&self) -> (levels: i32)
        requires
            self.wf(),
        ensures
            levels == height(self.root()),
    {
        let mut levels: i32 = 0;
        let mut link: &Option<Box<GTreeNode>> = &self.root;
        proof {
            lemma_height_bound(self.root);
            vstd::arithmetic::power2::lemma2_to64();
            if height(self.root) / 2 > 32 {
                vstd::arithmetic::power2::lemma_pow2_strictly_increases(32, height(self.root) / 2);
            }
        }
        loop
            invariant
                balanced(*link),
                levels >= 0,
                levels + height(*link) == height(self.root),
                height(self.root) < 70,
            ensures
                levels == height(self.root),
            decreases height(*link),
        {
            match link {
                None => {
                    break ;
                },
                Some(node) => {
                    let lean: i32 = if node.balance > 0 {
                        node.balance as i32
                    } else {
                        0
                    };
                    levels = levels + 1 + lean;
                    link = &node.left;
                },
            }
        }
        levels
    }

    /// The number of nodes; where it is over `i32::MAX`, it wraps round.
    pub fn nnodes(&self) -> (count: i32)
        requires
            self.wf(),
        ensures
            self@.len() <= u32::MAX,
            count == (if self@.len() <= i32::MAX {
                self@.len() as int
            } else {
                self@.len() - 0x1_0000_0000
            }),
    {
        let n: u32 = self.nnodes;
        assert(n <= 0x7fff_ffff ==> n as i32 == n) by (bit_vector);
        assert(n > 0x7fff_ffff ==> n as i32 == n - 0x1_0000_0000) by (bit_vector);
        n as i32
    }

    /// The first node in sorted key order.
    pub fn node_first(&self) -> (node: Option<&GTreeNode>)
        requires
            self.wf(),
        ensures
            node is Some == (self@.len() > 0),
            node matches Some(n) ==> *n == self.nodes()[0] && n.entry() == self@[0],
    {
        proof {
            lemma_nodes(self.root);
        }
        first_below(&self.root)
    }

    /// The last node in sorted key order.
    pub fn node_last(&self) -> (node: Option<&GTreeNode>)
        requires
            self.wf(),
        ensures
            node is Some == (self@.len() > 0),
            node matches Some(n) ==> *n == self.nodes().last() && n.entry() == self@.last(),
    {
        proof {
            lemma_nodes(self.root);
        }
        last_below(&self.root)
    }

    /// The node before `node` in sorted key order.
    pub fn node_previous(&self, node: &GTreeNode) -> (previous: Option<&GTreeNode>)
        requires
            self.wf(),
            self.nodes().contains(*node),
        ensures
            exists|i: int|
                0 <= i < self.nodes().len() && #[trigger] self.nodes()[i] == *node && if i == 0 {
                    previous is None
                } else {
                    previous matches Some(n) && *n == self.nodes()[i - 1]
                },
    {
        proof {
            let i = choose|i: int| 0 <= i < self.nodes().len() && self.nodes()[i] == *node;
            lemma_nodes(self.root);
            lemma_rank_of(self.order@, self@, i);
            assert(self@[i] == self.nodes()[i].entry());
        }
        last_before(&self.key_compare, &self.root, node.key)
    }

    /// The node after `node` in sorted key order.
    pub fn node_next(&self, node: &GTreeNode) -> (next: Option<&GTreeNode>)
        requires
            self.wf(),
            self.nodes().contains(*node),
        ensures
            exists|i: int|
                0 <= i < self.nodes().len() && #[trigger] self.nodes()[i] == *node && if i
                    == self.nodes().len() - 1 {
                    next is None
                } else {
                    next matches Some(n) && *n == self.nodes()[i + 1]
                },
    {
        proof {
            let i = choose|i: int| 0 <= i < self.nodes().len() && self.nodes()[i] == *node;
            lemma_nodes(self.root);
            lemma_rank_of(self.order@, self@, i);
            assert(self@[i] == self.nodes()[i].entry());
        }
        upper_bound_below(&self.key_compare, &self.root, node.key)
    }

    /// The key of a node.
    pub fn node_key(node: &GTreeNode) -> (key: GPointer)
        ensures
            key == node.key,
    {
        node.key
    }

    /// The value of a node.
    pub fn node_value(node: &GTreeNode) -> (value: GPointer)
        ensures
            value == node.value,
    {
        node.value
    }
}

/// The entries in the given order.
pub open spec fn walk_order(t: Link, traverse_type: TraverseType) -> Seq<Entry> {
    match traverse_type {
        TraverseType::PreOrder => pre_order(t),
        TraverseType::InOrder => in_order(t),
        TraverseType::PostOrder => post_order(t),
        TraverseType::LevelOrder => Seq::empty(),
    }
}

fn first_below(link: &Option<Box<GTreeNode>>) -> (node: Option<&GTreeNode>)
    ensures
        node is Some == (in_order(*link).len() > 0),
        node matches Some(n) ==> *n == nodes_in_order(*link)[0],
    decreases *link,
{
    match link {
        None => None,
        Some(node) => {
            proof {
                lemma_nodes(node.left);
            }
            match first_below(&node.left) {
                Some(first) => Some(first),
                None => Some(&**node),
            }
        },
    }
}

fn last_below(link: &Option<Box<GTreeNode>>) -> (node: Option<&GTreeNode>)
    ensures
        node is Some == (in_order(*link).len() > 0),
        node matches Some(n) ==> *n == nodes_in_order(*link).last(),
    decreases *link,
{
    match link {
        None => None,
        Some(node) => {
            proof {
                lemma_nodes(node.right);
            }
            match last_below(&node.right) {
                Some(last) => Some(last),
                None => {
                    assert(nodes_in_order(node.right).len() == 0);
                    Some(&**node)
                },
            }
        },
    }
}

/// List the due calls for all entries below a link.
fn notify_all(
    link: &Option<Box<GTreeNode>>,
    key_destroy: bool,
    value_destroy: bool,
    notices: &mut Vec<DestroyNotice>,
)
    ensures
        final(notices)@ == old(notices)@ + crate::notify::entry_notices(
            in_order(*link),
            key_destroy,
            value_destroy,
        ),
    decreases *link,
{
    match link {
        None => {
            assert(notices@ =~= old(notices)@ + crate::notify::entry_notices(
                in_order(*link),
                key_destroy,
                value_destroy,
            ));
        },
        Some(node) => {
            let ghost left = in_order(node.left);
            let ghost right = in_order(node.right);
            notify_all(&node.left, key_destroy, value_destroy, notices);
            notify_key(notices, key_destroy, node.key);
            notify_value(notices, value_destroy, node.value);
            assert(left.push(node.entry()).drop_last() =~= left);
            assert(notices@ =~= old(notices)@ + crate::notify::entry_notices(
                left.push(node.entry()),
                key_destroy,
                value_destroy,
            ));
            notify_all(&node.right, key_destroy, value_destroy, notices);
            proof {
                crate::notify::lemma_entry_notices_add(
                    left.push(node.entry()),
                    right,
                    key_destroy,
                    value_destroy,
                );
            }
            assert(notices@ =~= old(notices)@ + crate::notify::entry_notices(
                in_order(*link),
                key_destroy,
                value_destroy,
            ));
        },
    }
}

/// The entries of a tree are sorted by a total preorder, each key once, and can be counted; the
/// heights of the two subtrees of every node differ by at most one, and the node's balance is their
/// difference.
pub proof fn law_tree_is_sorted_and_balanced<C: KeyCompare>(tree: Tree<C>)
    requires
        tree.wf(),
    ensures
        total_preorder(tree.order()),
        sorted(tree.order(), tree@),
        balanced(tree.root()),
        tree@.len() <= u32::MAX,
{
}

/// Each node holds the entry of its position in sorted key order.
pub proof fn law_nodes_hold_entries<C>(tree: Tree<C>)
    ensures
        tree.nodes().len() == tree@.len(),
        forall|i: int|
            0 <= i < tree@.len() ==> (#[trigger] tree.nodes()[i]).entry() == tree@[i],
{
    lemma_nodes(tree.root());
}

/// A tree of `n` entries has at most `2 log2(n + 1) + 1` levels.
pub proof fn law_height_is_logarithmic<C: KeyCompare>(tree: Tree<C>)
    requires
        tree.wf(),
    ensures
        vstd::arithmetic::power2::pow2(height(tree.root()) / 2) <= tree@.len() + 1,
{
    lemma_height_bound(tree.root);
}

/// What [`Tree::insert`] and [`Tree::replace`] put in is what [`Tree::lookup`] finds, and the
/// other keys keep their values.
pub proof fn law_insert_then_lookup<C: KeyCompare>(
    before: Tree<C>,
    after: Tree<C>,
    key: GPointer,
    value: GPointer,
    replace: bool,
    other: GPointer,
)
    requires
        before.wf(),
        after.wf(),
        after.order() == before.order(),
        after@ == entries_with(before.order(), before@, key, value, replace),
    ensures
        after.has(key),
        after@[after.rank(key)].value == value,
        replace || !before.has(key) ==> after@[after.rank(key)].key == key,
        (before.order())(key, other) != 0 ==> {
            &&& after.has(other) == before.has(other)
            &&& after.has(other) ==> after@[after.rank(other)] == before@[before.rank(other)]
        },
{
    let c = before.order@;
    lemma_rank_range(c, before@, key);
    lemma_entries_with_sorted(c, before@, key, value, replace);
    if c(key, other) != 0 {
        lemma_same_key(c, before@, after@, key, other);
    }
}

/// A removed or stolen key is not found any more, and the other keys keep their values.
pub proof fn law_remove_then_lookup<C: KeyCompare>(
    before: Tree<C>,
    after: Tree<C>,
    key: GPointer,
    other: GPointer,
)
    requires
        before.wf(),
        after.wf(),
        after.order() == before.order(),
        after@ == entries_without(before.order(), before@, key),
    ensures
        !after.has(key),
        (before.order())(key, other) != 0 ==> {
            &&& after.has(other) == before.has(other)
            &&& after.has(other) ==> after@[after.rank(other)] == before@[before.rank(other)]
        },
{
    let c = before.order@;
    lemma_rank_range(c, before@, key);
    lemma_entries_without_sorted(c, before@, key);
    if c(key, other) != 0 {
        lemma_same_key(c, before@, after@, key, other);
    }
}

/// Two sorted sequences that agree on all entries but those whose key sorts with `key` agree on
/// the entry of any other key.
proof fn lemma_same_key(
    c: KeyOrder,
    before: Seq<Entry>,
    after: Seq<Entry>,
    key: GPointer,
    other: GPointer,
)
    requires
        total_preorder(c),
        sorted(c, before),
        sorted(c, after),
        c(key, other) != 0,
        (exists|value: GPointer, replace: bool|
            after == #[trigger] entries_with(c, before, key, value, replace)) || after
            == entries_without(c, before, key),
    ensures
        present(c, after, other) == present(c, before, other),
        present(c, after, other) ==> after[rank(c, after, other)] == before[rank(c, before, other)],
{
    lemma_rank_range(c, before, key);
    lemma_rank_range(c, before, other);
    lemma_rank_range(c, after, other);
    let at = rank(c, before, key);
    if present(c, before, other) {
        let i = rank(c, before, other);
        let e = before[i];
        assert(i != at || !present(c, before, key)) by {
            if i == at && present(c, before, key) {
                lemma_order_with(c, key, e.key, other);
            }
        }
        let j = if after.len() > before.len() && i >= at {
            i + 1
        } else if after.len() < before.len() && i > at {
            i - 1
        } else {
            i
        };
        assert(after[j] == e);
        lemma_rank_with(c, after, j, other);
    }
    if present(c, after, other) && after != before {
        let j = rank(c, after, other);
        let e = after[j];
        if after.len() >= before.len() && j == at {
            lemma_order_with(c, key, e.key, other);
        }
        let i = if after.len() > before.len() && j > at {
            j - 1
        } else if after.len() < before.len() && j >= at {
            j + 1
        } else {
            j
        };
        assert(before[i] == e);
        lemma_rank_with(c, before, i, other);
    }
}

/// Keys that sort with one key sort with each other.
proof fn lemma_order_with(c: KeyOrder, a: GPointer, b: GPointer, d: GPointer)
    requires
        total_preorder(c),
        c(a, b) == 0,
        c(d, b) == 0,
    ensures
        c(a, d) == 0,
{
    assert(c(b, a) == 0);
    assert(c(b, d) == 0);
    assert(c(a, d) <= 0);
    assert(c(d, a) <= 0);
}

/// The rank of a key that sorts with the key of an entry.
proof fn lemma_rank_with(c: KeyOrder, s: Seq<Entry>, i: int, key: GPointer)
    requires
        total_preorder(c),
        sorted(c, s),
        0 <= i < s.len(),
        c(key, s[i].key) == 0,
    ensures
        rank(c, s, key) == i,
        present(c, s, key),
{
    reveal(sorted);
    assert(c(s[i].key, key) == 0);
    assert forall|j: int| 0 <= j < i implies c(key, (#[trigger] s[j]).key) > 0 by {
        assert(c(s[j].key, s[i].key) < 0);
        assert(c(s[j].key, key) <= 0);
        if c(s[j].key, key) == 0 {
            assert(c(key, s[j].key) == 0);
            assert(c(s[i].key, s[j].key) <= 0);
        }
    }
    lemma_rank_is(c, s, key, i);
}
proof fn lemma_entries_with_sorted(
    c: KeyOrder,
    s: Seq<Entry>,
    key: GPointer,
    value: GPointer,
    replace: bool,
)
    requires
        total_preorder(c),
        sorted(c, s),
    ensures
        sorted(c, entries_with(c, s, key, value, replace)),
        rank(c, entries_with(c, s, key, value, replace), key) == rank(c, s, key),
        present(c, entries_with(c, s, key, value, replace), key),
{
    reveal(sorted);
    let new = entries_with(c, s, key, value, replace);
    let at = rank(c, s, key);
    lemma_rank_range(c, s, key);
    let found = present(c, s, key);
    assert(c(key, new[at].key) == 0);
    assert forall|i: int| 0 <= i < at implies c(key, (#[trigger] new[i]).key) > 0 by {
        assert(new[i] == s[i]);
    }
    assert forall|j: int| at < j < new.len() implies c(key, (#[trigger] new[j]).key) < 0 by {
        let e = if found {
            s[j]
        } else {
            s[j - 1]
        };
        assert(new[j] == e);
        if found {
            assert(c(s[at].key, s[j].key) < 0);
            assert(c(key, s[j].key) <= 0);
            if c(key, s[j].key) == 0 {
                assert(c(s[j].key, key) <= 0);
                assert(c(s[j].key, s[at].key) <= 0);
            }
        } else if j - 1 > at {
            assert(c(s[at].key, s[j - 1].key) < 0);
            assert(c(key, s[j - 1].key) <= 0);
            if c(key, s[j - 1].key) == 0 {
                assert(c(s[j - 1].key, key) <= 0);
                assert(c(s[j - 1].key, s[at].key) <= 0);
            }
        }
    }
    lemma_rank_is(c, new, key, at);
    assert forall|i: int, j: int| 0 <= i < j < new.len() implies c(
        (#[trigger] new[i]).key,
        (#[trigger] new[j]).key,
    ) < 0 by {
        let kept = new[at].key;
        if i == at {
            assert(c(key, new[j].key) < 0);
            assert(c(kept, new[j].key) <= 0);
            if c(kept, new[j].key) == 0 {
                assert(c(new[j].key, kept) <= 0);
                assert(c(new[j].key, key) <= 0);
            }
        } else if j == at {
            assert(c(key, new[i].key) > 0);
            assert(c(new[i].key, kept) <= 0);
            if c(new[i].key, kept) == 0 {
                assert(c(kept, new[i].key) <= 0);
                assert(c(key, new[i].key) <= 0);
            }
        } else {
            let a = if i > at && !found {
                i - 1
            } else {
                i
            };
            let b = if j > at && !found {
                j - 1
            } else {
                j
            };
            assert(new[i] == s[a] && new[j] == s[b]);
        }
    }
}

proof fn lemma_entries_without_sorted(c: KeyOrder, s: Seq<Entry>, key: GPointer)
    requires
        total_preorder(c),
        sorted(c, s),
    ensures
        sorted(c, entries_without(c, s, key)),
        !present(c, entries_without(c, s, key), key),
{
    reveal(sorted);
    lemma_rank_range(c, s, key);
    let at = rank(c, s, key);
    if present(c, s, key) {
        let new = s.remove(at);
        assert forall|i: int, j: int| 0 <= i < j < new.len() implies c(
            (#[trigger] new[i]).key,
            (#[trigger] new[j]).key,
        ) < 0 by {
            let a = if i >= at {
                i + 1
            } else {
                i
            };
            let b = if j >= at {
                j + 1
            } else {
                j
            };
            assert(new[i] == s[a] && new[j] == s[b]);
        }
        assert forall|i: int| 0 <= i < at implies c(key, (#[trigger] new[i]).key) > 0 by {
            assert(new[i] == s[i]);
        }
        if at < new.len() {
            assert(new[at] == s[at + 1]);
            assert(c(s[at].key, s[at + 1].key) < 0);
            assert(c(key, s[at + 1].key) <= 0);
            if c(key, s[at + 1].key) == 0 {
                assert(c(s[at + 1].key, key) <= 0);
                assert(c(s[at + 1].key, s[at].key) <= 0);
            }
        }
        lemma_rank_is(c, new, key, at);
    }
}

impl<C: KeyCompare> Tree<C> {
    /// One more reference to a shared tree.
    pub fn ref_(heap: &mut RefHeap<Self>, tree: &Ref) -> (copy: Ref)
        requires
            old(heap).has(tree),
            old(heap).count(tree) < u32::MAX,
        ensures
            copy.id() == tree.id(),
            final(heap)@ == old(heap)@.insert(
                tree.id(),
                Counted {
                    value: old(heap).value(tree),
                    count: (old(heap).count(tree) + 1) as u32,
                },
            ),
    {
        heap.add_ref(tree)
    }

    /// Give up a reference to a shared tree. With the last one it ends; returns the calls that
    /// are due then.
    pub fn unref(heap: &mut RefHeap<Self>, tree: Ref) -> (due: Vec<DestroyNotice>)
        requires
            old(heap).has(&tree),
            old(heap).count(&tree) > 0,
            old(heap).value(&tree).wf(),
        ensures
            old(heap).count(&tree) == 1 ==> {
                &&& final(heap)@ == old(heap)@.remove(tree.id())
                &&& due@ == old(heap).value(&tree).notices() + crate::notify::entry_notices(
                    old(heap).value(&tree)@,
                    old(heap).value(&tree).destroys_keys(),
                    old(heap).value(&tree).destroys_values(),
                )
            },
            old(heap).count(&tree) > 1 ==> {
                &&& due@ == Seq::<DestroyNotice>::empty()
                &&& final(heap)@ == old(heap)@.insert(
                    tree.id(),
                    Counted {
                        value: old(heap).value(&tree),
                        count: (old(heap).count(&tree) - 1) as u32,
                    },
                )
            },
    {
        match heap.release(tree) {
            Some(last) => last.release(),
            None => Vec::new(),
        }
    }

    /// Remove all entries of a shared tree and give up a reference to it.
    pub fn destroy(heap: &mut RefHeap<Self>, tree: Ref) -> (due: Vec<DestroyNotice>)
        requires
            old(heap).has(&tree),
            old(heap).count(&tree) > 0,
            old(heap).value(&tree).wf(),
        ensures
            final(heap)@.remove(tree.id()) == old(heap)@.remove(tree.id()),
            ({
                let before = old(heap).value(&tree);
                let after = final(heap).value(&tree);
                let notices = before.notices() + crate::notify::entry_notices(
                    before@,
                    before.destroys_keys(),
                    before.destroys_values(),
                );
                &&& final(heap).has(&tree) == (old(heap).count(&tree) > 1)
                &&& final(heap).has(&tree) ==> {
                    &&& final(heap).count(&tree) == old(heap).count(&tree) - 1
                    &&& after.wf()
                    &&& after.same_setup(&before)
                    &&& after.root() is None
                    &&& after.notices() == notices
                    &&& due@ == Seq::<DestroyNotice>::empty()
                }
                &&& !final(heap).has(&tree) ==> due@ == notices
            }),
    {
        heap.get_mut(&tree).remove_all();
        let ghost cleared = *heap;
        let due = Self::unref(heap, tree);
        proof {
            let id = tree.id();
            assert(heap@.remove(id) =~= cleared@.remove(id));
            assert(cleared@.remove(id) =~= old(heap)@.remove(id));
            let listed = cleared.value(&tree).notices();
            assert(listed + Seq::<DestroyNotice>::empty() =~= listed);
            assert(cleared.value(&tree)@ =~= Seq::<Entry>::empty());
        }
        due
    }
}

/// [`Tree::foreach`] calls the function with each key and its value, in the order of the entries,
/// up to the first on which it ends the walk, that one included: one that takes note of what it is
/// called with has these in the end.
pub proof fn law_foreach_reaches_all<C, U, F: Fn(GPointer, GPointer, U) -> (U, bool)>(
    tree: Tree<C>,
    func: F,
    first: U,
    last: U,
    stopped: bool,
    record: spec_fn(U) -> Seq<(GPointer, GPointer)>,
    ends: spec_fn(GPointer, GPointer) -> bool,
) -> (n: int)
    requires
        crate::callback::walks(visit(func), tree@, first, last, stopped),
        forall|key: GPointer, value: GPointer, before: U, after: (U, bool)| #[trigger]
            func.ensures((key, value, before), after) ==> record(after.0) == record(before).push(
                (key, value),
            ) && after.1 == ends(key, value),
    ensures
        0 <= n <= tree@.len(),
        record(last) == record(first) + Seq::new(
            n as nat,
            |i: int| (tree@[i].key, tree@[i].value),
        ),
        (forall|key: GPointer, value: GPointer| !#[trigger] ends(key, value)) ==> n == tree@.len(),
        n < tree@.len() ==> n > 0 && ends(tree@[n - 1].key, tree@[n - 1].value),
        forall|i: int| 0 <= i < n - 1 ==> !ends((#[trigger] tree@[i]).key, tree@[i].value),
{
    lemma_walk_reaches(tree@, func, first, last, stopped, record, ends)
}

/// A walk over entries calls the function with their keys and values.
proof fn lemma_walk_reaches<U, F: Fn(GPointer, GPointer, U) -> (U, bool)>(
    entries: Seq<Entry>,
    func: F,
    first: U,
    last: U,
    stopped: bool,
    record: spec_fn(U) -> Seq<(GPointer, GPointer)>,
    ends: spec_fn(GPointer, GPointer) -> bool,
) -> (n: int)
    requires
        crate::callback::walks(visit(func), entries, first, last, stopped),
        forall|key: GPointer, value: GPointer, before: U, after: (U, bool)| #[trigger]
            func.ensures((key, value, before), after) ==> record(after.0) == record(before).push(
                (key, value),
            ) && after.1 == ends(key, value),
    ensures
        0 <= n <= entries.len(),
        record(last) == record(first) + Seq::new(
            n as nat,
            |i: int| (entries[i].key, entries[i].value),
        ),
        (forall|key: GPointer, value: GPointer| !#[trigger] ends(key, value)) ==> n
            == entries.len(),
        n < entries.len() ==> n > 0 && ends(entries[n - 1].key, entries[n - 1].value),
        forall|i: int| 0 <= i < n - 1 ==> !ends((#[trigger] entries[i]).key, entries[i].value),
{
    let step = visit::<U, F>(func);
    let as_entries = |u: U|
        Seq::new(
            record(u).len(),
            |i: int| Entry { key: record(u)[i].0, value: record(u)[i].1 },
        );
    let entry_ends = |e: Entry| ends(e.key, e.value);
    assert forall|x: Entry, before: U, after: U, stop: bool| #[trigger]
        step(x, before, after, stop) implies as_entries(after) == as_entries(before).push(x)
        && stop == entry_ends(x) by {
        assert(func.ensures((x.key, x.value, before), (after, stop)));
        assert(as_entries(after) =~= as_entries(before).push(x));
    }
    let n = crate::callback::law_walks_reach_all(
        step,
        entries,
        first,
        last,
        stopped,
        as_entries,
        entry_ends,
    );
    let pairs = Seq::new(n as nat, |i: int| (entries[i].key, entries[i].value));
    let all = as_entries(last);
    assert(record(last).len() == all.len());
    let noted = record(last);
    assert forall|i: int| 0 <= i < noted.len() implies #[trigger] noted[i] == (record(first)
        + pairs)[i] by {
        assert(all[i] == (as_entries(first) + entries.take(n))[i]);
    }
    assert(record(last) =~= record(first) + pairs);
    assert forall|i: int| 0 <= i < n - 1 implies !ends(
        (#[trigger] entries[i]).key,
        entries[i].value,
    ) by {
        assert(!entry_ends(entries[i]));
    }
    if stopped {
        assert(entry_ends(entries[n - 1]));
    }
    n
}

/// [`Tree::traverse`] in pre-order or post-order calls the function with each key and its value as
/// well: with the same entries as in sorted order, only in another order. In pre-order the top comes
/// first and then the left subtree as a whole, in post-order the left subtree as a whole comes first
/// and the top last; in sorted order the top stands between its subtrees.
pub proof fn law_traversals_agree(t: Link)
    ensures
        walk_order(t, TraverseType::PreOrder).to_multiset() == walk_order(
            t,
            TraverseType::InOrder,
        ).to_multiset(),
        walk_order(t, TraverseType::PostOrder).to_multiset() == walk_order(
            t,
            TraverseType::InOrder,
        ).to_multiset(),
        walk_order(t, TraverseType::LevelOrder).len() == 0,
        t is None ==> walk_order(t, TraverseType::InOrder).len() == 0,
        t matches Some(n) ==> {
            let top = Entry { key: n.key, value: n.value };
            let lefts = walk_order(n.left, TraverseType::InOrder).len() as int;
            let pre = walk_order(t, TraverseType::PreOrder);
            let middle = walk_order(t, TraverseType::InOrder);
            let post = walk_order(t, TraverseType::PostOrder);
            &&& pre.first() == top && middle[lefts] == top && post.last() == top
            &&& pre.subrange(1, 1 + lefts) == walk_order(n.left, TraverseType::PreOrder)
            &&& pre.skip(1 + lefts) == walk_order(n.right, TraverseType::PreOrder)
            &&& middle.take(lefts) == walk_order(n.left, TraverseType::InOrder)
            &&& middle.skip(1 + lefts) == walk_order(n.right, TraverseType::InOrder)
            &&& post.take(lefts) == walk_order(n.left, TraverseType::PostOrder)
            &&& post.subrange(lefts, post.len() - 1) == walk_order(
                n.right,
                TraverseType::PostOrder,
            )
        },
    decreases t,
{
    broadcast use vstd::multiset::group_multiset_axioms;

    if let Some(n) = t {
        law_traversals_agree(n.left);
        law_traversals_agree(n.right);
        let (a, b, c) = (pre_order(n.left), in_order(n.left), post_order(n.left));
        let (d, e, f) = (pre_order(n.right), in_order(n.right), post_order(n.right));
        a.to_multiset_ensures();
        b.to_multiset_ensures();
        c.to_multiset_ensures();
        d.to_multiset_ensures();
        e.to_multiset_ensures();
        f.to_multiset_ensures();
        let top = seq![n.entry()];
        vstd::seq_lib::lemma_multiset_commutative(top + a, d);
        vstd::seq_lib::lemma_multiset_commutative(top, a);
        vstd::seq_lib::lemma_multiset_commutative(b + top, e);
        vstd::seq_lib::lemma_multiset_commutative(b, top);
        vstd::seq_lib::lemma_multiset_commutative(c, f + top);
        vstd::seq_lib::lemma_multiset_commutative(f, top);
        assert(in_order(t) =~= b + top + e);
        assert(post_order(t) =~= c + (f + top));
        assert(pre_order(t).to_multiset() =~= in_order(t).to_multiset());
        assert(post_order(t).to_multiset() =~= in_order(t).to_multiset());
        let lefts = b.len() as int;
        let pre = pre_order(t);
        let post = post_order(t);
        assert(pre.subrange(1, 1 + lefts) =~= a);
        assert(pre.skip(1 + lefts) =~= d);
        assert(in_order(t).take(lefts) =~= b);
        assert(in_order(t).skip(1 + lefts) =~= e);
        assert(post.take(lefts) =~= c);
        assert(post.subrange(lefts, post.len() - 1) =~= f);
    }
}

/// [`Tree::traverse`] calls the function with the keys and values of the entries in its order, as
/// [`Tree::foreach`] does in sorted order.
pub proof fn law_traverse_reaches_all<U, F: Fn(GPointer, GPointer, U) -> (U, bool)>(
    t: Link,
    traverse_type: TraverseType,
    func: F,
    first: U,
    last: U,
    stopped: bool,
    record: spec_fn(U) -> Seq<(GPointer, GPointer)>,
    ends: spec_fn(GPointer, GPointer) -> bool,
) -> (n: int)
    requires
        crate::callback::walks(visit(func), walk_order(t, traverse_type), first, last, stopped),
        forall|key: GPointer, value: GPointer, before: U, after: (U, bool)| #[trigger]
            func.ensures((key, value, before), after) ==> record(after.0) == record(before).push(
                (key, value),
            ) && after.1 == ends(key, value),
    ensures
        ({
            let order = walk_order(t, traverse_type);
            &&& 0 <= n <= order.len()
            &&& record(last) == record(first) + Seq::new(
                n as nat,
                |i: int| (order[i].key, order[i].value),
            )
            &&& (forall|key: GPointer, value: GPointer| !#[trigger] ends(key, value)) ==> n
                == order.len()
            &&& n < order.len() ==> n > 0 && ends(order[n - 1].key, order[n - 1].value)
            &&& forall|i: int| 0 <= i < n - 1 ==> !ends((#[trigger] order[i]).key, order[i].value)
        }),
{
    lemma_walk_reaches(walk_order(t, traverse_type), func, first, last, stopped, record, ends)
}

/// [`Tree::foreach_node`] calls the function with each node, in sorted order, up to the first on
/// which it ends the walk.
pub proof fn law_foreach_node_reaches_all<C, U, F: Fn(&GTreeNode, U) -> (U, bool)>(
    tree: Tree<C>,
    func: F,
    first: U,
    last: U,
    stopped: bool,
    record: spec_fn(U) -> Seq<GTreeNode>,
    ends: spec_fn(GTreeNode) -> bool,
) -> (n: int)
    requires
        crate::callback::walks(visit_node(func), tree.nodes(), first, last, stopped),
        forall|node: &GTreeNode, before: U, after: (U, bool)| #[trigger]
            func.ensures((node, before), after) ==> record(after.0) == record(before).push(*node)
                && after.1 == ends(*node),
    ensures
        0 <= n <= tree@.len(),
        record(last) == record(first) + tree.nodes().take(n),
        (forall|node: GTreeNode| !#[trigger] ends(node)) ==> n == tree@.len(),
        n < tree@.len() ==> n > 0 && ends(tree.nodes()[n - 1]),
        forall|i: int|
            0 <= i < tree@.len() ==> {
                &&& (#[trigger] tree.nodes()[i]).key == tree@[i].key
                &&& tree.nodes()[i].value == tree@[i].value
            },
{
    lemma_nodes(tree.root());
    let step = visit_node::<U, F>(func);
    assert forall|i: int| 0 <= i < tree@.len() implies (#[trigger] tree.nodes()[i]).key
        == tree@[i].key && tree.nodes()[i].value == tree@[i].value by {
        assert(tree.nodes()[i].entry() == tree@[i]);
    }
    assert forall|x: GTreeNode, before: U, after: U, stop: bool| #[trigger]
        step(x, before, after, stop) implies record(after) == record(before).push(x) && stop
        == ends(x) by {
        assert(func.ensures((&x, before), (after, stop)));
    }
    crate::callback::law_walks_reach_all(step, tree.nodes(), first, last, stopped, record, ends)
}

/// Where keys are found in a tree: a key has an entry exactly where one of the entries has a key
/// that sorts with it, and its rank is the position of that entry; the rank of any key parts the
/// entries with smaller keys from the others, and the rank after it those with larger keys from the
/// others. No two entries have keys that sort together.
pub proof fn law_lookup_goes_by_order<C: KeyCompare>(tree: Tree<C>, key: GPointer)
    requires
        tree.wf(),
    ensures
        tree.has(key) == exists|i: int|
            0 <= i < tree@.len() && (tree.order())(key, (#[trigger] tree@[i]).key) == 0,
        forall|i: int|
            0 <= i < tree@.len() && (tree.order())(key, (#[trigger] tree@[i]).key) == 0
                ==> tree.rank(key) == i && tree.rank_after(key) == i + 1,
        0 <= tree.rank(key) <= tree.rank_after(key) <= tree@.len(),
        forall|i: int|
            0 <= i < tree@.len() ==> ((tree.order())((#[trigger] tree@[i]).key, key) < 0) == (i
                < tree.rank(key)),
        forall|i: int|
            0 <= i < tree@.len() ==> ((tree.order())((#[trigger] tree@[i]).key, key) > 0) == (i
                >= tree.rank_after(key)),
        forall|i: int, j: int|
            0 <= i < j < tree@.len() ==> (tree.order())(
                (#[trigger] tree@[i]).key,
                (#[trigger] tree@[j]).key,
            ) < 0,
{
    reveal(sorted);
    let c = tree.order@;
    let s = tree@;
    lemma_rank_range(c, s, key);
    let r = rank(c, s, key);
    let a = rank_after(c, s, key);
    assert forall|i: int| 0 <= i < s.len() && c(key, (#[trigger] s[i]).key) == 0 implies rank(
        c,
        s,
        key,
    ) == i && rank_after(c, s, key) == i + 1 by {
        lemma_rank_with(c, s, i, key);
        if i + 1 < s.len() {
            assert(c(s[i].key, s[i + 1].key) < 0);
            assert(c(key, s[i + 1].key) <= 0);
            if c(key, s[i + 1].key) == 0 {
                assert(c(s[i + 1].key, key) == 0);
                assert(c(s[i + 1].key, s[i].key) <= 0);
            }
        }
        lemma_rank_after_is(c, s, key, i + 1);
    }
    assert forall|i: int| 0 <= i < s.len() implies (c((#[trigger] s[i]).key, key) < 0) == (i < r) by {
        if i < r {
            assert(c(key, s[i].key) > 0);
        } else {
            assert(c(key, s[r].key) <= 0);
            if i > r {
                assert(c(s[r].key, s[i].key) < 0);
            }
            assert(c(key, s[i].key) <= 0);
        }
    }
    assert forall|i: int| 0 <= i < s.len() implies (c((#[trigger] s[i]).key, key) > 0) == (i
        >= a) by {
        if i < a {
            assert(c(key, s[i].key) >= 0);
        } else {
            assert(c(key, s[a].key) < 0);
            if i > a {
                assert(c(s[a].key, s[i].key) < 0);
                assert(c(key, s[i].key) <= 0);
                if c(key, s[i].key) == 0 {
                    assert(c(s[i].key, key) == 0);
                    assert(c(s[i].key, s[a].key) <= 0);
                }
            }
        }
    }
    if a < r {
        assert(c(key, s[a].key) > 0);
    }
}

/// What [`Tree::insert`] and [`Tree::replace`] do to the entries: exactly one entry has a key that
/// sorts with the one put in, and it has the new value and, where it is new or replaced, the new key
/// itself; all other entries are those that were there.
pub proof fn law_insert_changes_one_entry<C: KeyCompare>(
    tree: Tree<C>,
    key: GPointer,
    value: GPointer,
    replace: bool,
)
    requires
        tree.wf(),
    ensures
        ({
            let order = tree.order();
            let before = tree@;
            let after = entries_with(order, before, key, value, replace);
            let known = exists|i: int|
                0 <= i < before.len() && order(key, (#[trigger] before[i]).key) == 0;
            &&& after.len() == before.len() + (if known {
                0int
            } else {
                1int
            })
            &&& exists|i: int|
                0 <= i < after.len() && order(key, (#[trigger] after[i]).key) == 0
                    && after[i].value == value
            &&& forall|i: int|
                0 <= i < after.len() && order(key, (#[trigger] after[i]).key) == 0 ==> {
                    &&& after[i].value == value
                    &&& replace || !known ==> after[i].key == key
                    &&& !replace ==> after[i].key == key || exists|j: int|
                        0 <= j < before.len() && (#[trigger] before[j]).key == after[i].key
                    &&& !replace && known ==> exists|j: int|
                        0 <= j < before.len() && (#[trigger] before[j]).key == after[i].key
                }
            &&& forall|e: Entry|
                order(key, e.key) != 0 ==> #[trigger] after.contains(e) == before.contains(e)
            &&& forall|i: int, j: int|
                0 <= i < j < after.len() ==> order(
                    (#[trigger] after[i]).key,
                    (#[trigger] after[j]).key,
                ) < 0
        }),
{
    let c = tree.order@;
    let s = tree@;
    let after = entries_with(c, s, key, value, replace);
    law_lookup_goes_by_order(tree, key);
    lemma_rank_range(c, s, key);
    lemma_entries_with_sorted(c, s, key, value, replace);
    reveal(sorted);
    let at = rank(c, s, key);
    lemma_rank_range(c, after, key);
    assert(after[at].value == value);
    assert(c(key, after[at].key) == 0);
    assert forall|i: int| 0 <= i < after.len() && c(key, (#[trigger] after[i]).key) == 0 implies i
        == at by {
        lemma_rank_with(c, after, i, key);
    }
    if present(c, s, key) {
        assert(s[at].key == s[at].key);
    }
    assert forall|e: Entry| c(key, e.key) != 0 implies #[trigger] after.contains(e) == s.contains(
        e,
    ) by {
        if s.contains(e) {
            let i = choose|i: int| 0 <= i < s.len() && s[i] == e;
            if present(c, s, key) {
                assert(i != at);
                assert(after[i] == e);
            } else if i < at {
                assert(after[i] == e);
            } else {
                assert(after[i + 1] == e);
            }
        }
        if after.contains(e) {
            let i = choose|i: int| 0 <= i < after.len() && after[i] == e;
            assert(i != at);
            if present(c, s, key) {
                assert(s[i] == e);
            } else if i < at {
                assert(s[i] == e);
            } else {
                assert(s[i - 1] == e);
            }
        }
    }
}

/// What [`Tree::remove`] and [`Tree::steal`] do to the entries: the one whose key sorts with the
/// removed key leaves, and all others stay.
pub proof fn law_remove_takes_one_entry<C: KeyCompare>(tree: Tree<C>, key: GPointer)
    requires
        tree.wf(),
    ensures
        ({
            let order = tree.order();
            let before = tree@;
            let after = entries_without(order, before, key);
            let known = exists|i: int|
                0 <= i < before.len() && order(key, (#[trigger] before[i]).key) == 0;
            &&& after.len() == before.len() - (if known {
                1int
            } else {
                0int
            })
            &&& forall|e: Entry| #[trigger]
                after.contains(e) == (before.contains(e) && order(key, e.key) != 0)
            &&& forall|i: int, j: int|
                0 <= i < j < after.len() ==> order(
                    (#[trigger] after[i]).key,
                    (#[trigger] after[j]).key,
                ) < 0
        }),
{
    let c = tree.order@;
    let s = tree@;
    let after = entries_without(c, s, key);
    law_lookup_goes_by_order(tree, key);
    lemma_rank_range(c, s, key);
    lemma_entries_without_sorted(c, s, key);
    reveal(sorted);
    let at = rank(c, s, key);
    assert forall|e: Entry| #[trigger] after.contains(e) == (s.contains(e) && c(key, e.key)
        != 0) by {
        if s.contains(e) && c(key, e.key) != 0 {
            let i = choose|i: int| 0 <= i < s.len() && s[i] == e;
            if present(c, s, key) {
                assert(i != at);
                if i < at {
                    assert(after[i] == e);
                } else {
                    assert(after[i - 1] == e);
                }
            }
        }
        if after.contains(e) {
            let i = choose|i: int| 0 <= i < after.len() && after[i] == e;
            if present(c, s, key) {
                let j = if i < at {
                    i
                } else {
                    i + 1
                };
                assert(s[j] == e);
                if c(key, s[j].key) == 0 {
                    assert(tree.rank(key) == j);
                }
            } else {
                assert(s[i] == e);
            }
        }
    }
}

/// What a search finds is a node of the tree on which the function answers zero; and where its
/// answers go from positive over zero to negative along the entries, it finds one if there is one.
pub proof fn law_search_finds<C, F: Fn(GPointer, GPointer) -> i32>(
    tree: Tree<C>,
    search_func: F,
    data: GPointer,
    found: Option<GTreeNode>,
)
    requires
        searches(search_func, tree.root(), data, found),
    ensures
        found matches Some(node) ==> {
            &&& search_func.ensures((node.key, data), 0i32)
            &&& tree@.contains(Entry { key: node.key, value: node.value })
            &&& tree.nodes().contains(node)
        },
        forall|ask: spec_fn(GPointer) -> i32| #[trigger]
            answers(search_func, data, ask) && turns(ask, tree@) ==> (found is Some) == exists|
                i: int,
            |
                0 <= i < tree@.len() && ask((#[trigger] tree@[i]).key) == 0,
{
    lemma_search(tree.root(), search_func, data, found);
    assert forall|ask: spec_fn(GPointer) -> i32| #[trigger]
        answers(search_func, data, ask) && turns(ask, tree@) implies (found is Some) == exists|
        i: int,
    |
        0 <= i < tree@.len() && ask((#[trigger] tree@[i]).key) == 0 by {
        lemma_search_complete(tree.root(), search_func, data, found, ask);
    }
}

/// The answers of a search function for this data are those of `ask`.
pub open spec fn answers<F: Fn(GPointer, GPointer) -> i32>(
    search_func: F,
    data: GPointer,
    ask: spec_fn(GPointer) -> i32,
) -> bool {
    forall|key: GPointer, order: i32| #[trigger]
        search_func.ensures((key, data), order) ==> order == ask(key)
}

/// Along the entries the answers go from positive over zero to negative.
pub open spec fn turns(ask: spec_fn(GPointer) -> i32, entries: Seq<Entry>) -> bool {
    forall|i: int, j: int|
        0 <= i < j < entries.len() ==> {
            &&& ask((#[trigger] entries[j]).key) > 0 ==> ask((#[trigger] entries[i]).key) > 0
            &&& ask(entries[i].key) < 0 ==> ask(entries[j].key) < 0
        }
}

proof fn lemma_search<F: Fn(GPointer, GPointer) -> i32>(
    t: Link,
    search_func: F,
    data: GPointer,
    found: Option<GTreeNode>,
)
    requires
        searches(search_func, t, data, found),
    ensures
        found matches Some(node) ==> {
            &&& search_func.ensures((node.key, data), 0i32)
            &&& in_order(t).contains(Entry { key: node.key, value: node.value })
            &&& nodes_in_order(t).contains(node)
        },
    decreases t,
{
    if let Some(n) = t {
        let order = choose|order: i32| #[trigger]
            search_func.ensures((n.key, data), order) && if order == 0 {
                found == Some(*n)
            } else if order < 0 {
                searches(search_func, n.left, data, found)
            } else {
                searches(search_func, n.right, data, found)
            };
        let lefts = in_order(n.left).len() as int;
        lemma_nodes(n.left);
        assert(in_order(t)[lefts] == n.entry());
        assert(nodes_in_order(t)[lefts] == *n);
        if order != 0 {
            if order < 0 {
                lemma_search(n.left, search_func, data, found);
            } else {
                lemma_search(n.right, search_func, data, found);
            }
            if let Some(node) = found {
                let e = node.entry();
                if order < 0 {
                    let i = choose|i: int| 0 <= i < lefts && in_order(n.left)[i] == e;
                    assert(in_order(t)[i] == e);
                    let j = choose|j: int|
                        0 <= j < nodes_in_order(n.left).len() && nodes_in_order(n.left)[j] == node;
                    assert(nodes_in_order(t)[j] == node);
                } else {
                    let i = choose|i: int|
                        0 <= i < in_order(n.right).len() && in_order(n.right)[i] == e;
                    assert(in_order(t)[lefts + 1 + i] == e);
                    let j = choose|j: int|
                        0 <= j < nodes_in_order(n.right).len() && nodes_in_order(n.right)[j]
                            == node;
                    assert(nodes_in_order(t)[lefts + 1 + j] == node);
                }
            }
        }
    }
}

proof fn lemma_search_complete<F: Fn(GPointer, GPointer) -> i32>(
    t: Link,
    search_func: F,
    data: GPointer,
    found: Option<GTreeNode>,
    ask: spec_fn(GPointer) -> i32,
)
    requires
        searches(search_func, t, data, found),
        answers(search_func, data, ask),
        turns(ask, in_order(t)),
    ensures
        (found is Some) == exists|i: int|
            0 <= i < in_order(t).len() && ask((#[trigger] in_order(t)[i]).key) == 0,
    decreases t,
{
    if let Some(n) = t {
        let order = choose|order: i32| #[trigger]
            search_func.ensures((n.key, data), order) && if order == 0 {
                found == Some(*n)
            } else if order < 0 {
                searches(search_func, n.left, data, found)
            } else {
                searches(search_func, n.right, data, found)
            };
        let s = in_order(t);
        let a = in_order(n.left);
        let b = in_order(n.right);
        let m = a.len() as int;
        assert(s[m] == n.entry());
        assert forall|i: int| 0 <= i < m implies #[trigger] s[i] == a[i] by {
        }
        assert forall|i: int| 0 <= i < b.len() implies #[trigger] b[i] == s[m + 1 + i] by {
        }
        assert(turns(ask, a)) by {
            assert forall|i: int, j: int| 0 <= i < j < a.len() implies {
                &&& ask((#[trigger] a[j]).key) > 0 ==> ask((#[trigger] a[i]).key) > 0
                &&& ask(a[i].key) < 0 ==> ask(a[j].key) < 0
            } by {
                assert(s[i] == a[i] && s[j] == a[j]);
            }
        }
        assert(turns(ask, b)) by {
            assert forall|i: int, j: int| 0 <= i < j < b.len() implies {
                &&& ask((#[trigger] b[j]).key) > 0 ==> ask((#[trigger] b[i]).key) > 0
                &&& ask(b[i].key) < 0 ==> ask(b[j].key) < 0
            } by {
                assert(s[m + 1 + i] == b[i] && s[m + 1 + j] == b[j]);
            }
        }
        if order == 0 {
            assert(ask(s[m].key) == 0);
        } else if order < 0 {
            lemma_search_complete(n.left, search_func, data, found, ask);
            if exists|i: int| 0 <= i < s.len() && ask((#[trigger] s[i]).key) == 0 {
                let i = choose|i: int| 0 <= i < s.len() && ask((#[trigger] s[i]).key) == 0;
                assert(ask(s[m].key) < 0);
                assert(i < m);
                assert(ask(a[i].key) == 0);
            }
            if found is Some {
                let i = choose|i: int| 0 <= i < a.len() && ask((#[trigger] a[i]).key) == 0;
                assert(ask(s[i].key) == 0);
            }
        } else {
            lemma_search_complete(n.right, search_func, data, found, ask);
            if exists|i: int| 0 <= i < s.len() && ask((#[trigger] s[i]).key) == 0 {
                let i = choose|i: int| 0 <= i < s.len() && ask((#[trigger] s[i]).key) == 0;
                assert(ask(s[m].key) > 0);
                assert(i > m);
                assert(ask(b[i - m - 1].key) == 0);
            }
            if found is Some {
                let i = choose|i: int| 0 <= i < b.len() && ask((#[trigger] b[i]).key) == 0;
                assert(ask(s[m + 1 + i].key) == 0);
            }
        }
    }
}

/// The number of levels: a tree has no more of them than nodes, and on `h` levels at most `2^h - 1`
/// nodes; a tree with nodes has one level more than its higher subtree.
pub proof fn law_height_counts_levels(t: Link)
    ensures
        height(t) <= in_order(t).len() < vstd::arithmetic::power2::pow2(height(t)),
        t matches Some(n) ==> {
            &&& height(t) > height(n.left) && height(t) > height(n.right)
            &&& height(t) == height(n.left) + 1 || height(t) == height(n.right) + 1
        },
    decreases t,
{
    vstd::arithmetic::power2::lemma2_to64();
    if let Some(n) = t {
        law_height_counts_levels(n.left);
        law_height_counts_levels(n.right);
        let h = height(t);
        vstd::arithmetic::power2::lemma_pow2_unfold(h);
        let less = (h - 1) as nat;
        if height(n.left) < less {
            vstd::arithmetic::power2::lemma_pow2_strictly_increases(height(n.left), less);
        }
        if height(n.right) < less {
            vstd::arithmetic::power2::lemma_pow2_strictly_increases(height(n.right), less);
        }
    }
}

/// What is at the top of a subtree after it has been put in balance. Where the heights of its sides
/// differ by at most one nothing moves. Else the higher side's top comes up, or, where that side's
/// inner half is the higher one, the top of that half.
pub proof fn law_rebalanced(left: Link, entry: Entry, right: Link)
    ensures
        -1 <= height(left) - height(right) <= 1 ==> {
            let top = rebalanced(left, entry, right);
            &&& top.key == entry.key && top.value == entry.value
            &&& top.left == left && top.right == right
        },
        height(left) > height(right) + 1 ==> {
            let top = rebalanced(left, entry, right);
            let l = *left->0;
            &&& height(l.left) >= height(l.right) ==> {
                &&& top.key == l.key && top.value == l.value
                &&& top.left == l.left
                &&& top.right is Some
                &&& top.right->0.key == entry.key && top.right->0.value == entry.value
                &&& top.right->0.left == l.right && top.right->0.right == right
            }
            &&& height(l.left) < height(l.right) ==> {
                let inner = *l.right->0;
                &&& top.key == inner.key && top.value == inner.value
                &&& top.left is Some && top.right is Some
                &&& top.left->0.key == l.key && top.left->0.value == l.value
                &&& top.left->0.left == l.left && top.left->0.right == inner.left
                &&& top.right->0.key == entry.key && top.right->0.value == entry.value
                &&& top.right->0.left == inner.right && top.right->0.right == right
            }
        },
        height(right) > height(left) + 1 ==> {
            let top = rebalanced(left, entry, right);
            let r = *right->0;
            &&& height(r.right) >= height(r.left) ==> {
                &&& top.key == r.key && top.value == r.value
                &&& top.right == r.right
                &&& top.left is Some
                &&& top.left->0.key == entry.key && top.left->0.value == entry.value
                &&& top.left->0.left == left && top.left->0.right == r.left
            }
            &&& height(r.right) < height(r.left) ==> {
                let inner = *r.left->0;
                &&& top.key == inner.key && top.value == inner.value
                &&& top.left is Some && top.right is Some
                &&& top.right->0.key == r.key && top.right->0.value == r.value
                &&& top.right->0.right == r.right && top.right->0.left == inner.right
                &&& top.left->0.key == entry.key && top.left->0.value == entry.value
                &&& top.left->0.right == inner.left && top.left->0.left == left
            }
        },
{
    reveal(rebalanced);
}

/// What takes the place of a node that is removed: its only side, or, where it has two, the next
/// entry in order, before the subtree is put in balance; the entries of its sides stay, in order.
pub proof fn law_removed_node(n: GTreeNode)
    requires
        balanced(n.left),
        balanced(n.right),
        -1 <= height(n.left) - height(n.right) <= 1,
    ensures
        n.left is None ==> without_top(n) == n.right,
        n.right is None ==> without_top(n) == n.left,
        n.left is Some && n.right is Some && height(n.left) <= height(n.right) ==> {
            &&& without_top(n) is Some
            &&& without_top(n)->0.entry() == in_order(n.right)[0]
            &&& without_top(n)->0.left == n.left
        },
        in_order(without_top(n)) == in_order(n.left) + in_order(n.right),
{
    if n.left is None {
        assert(in_order(n.left) + in_order(n.right) =~= in_order(n.right));
    } else if n.right is None {
        assert(in_order(n.left) + in_order(n.right) =~= in_order(n.left));
    } else {
        lemma_without_first(n.right);
        let first = in_order(n.right)[0];
        let rest = without_first(n.right);
        lemma_rebalanced(n.left, first, rest);
        assert(in_order(n.left).push(first) + in_order(rest) =~= in_order(n.left) + in_order(
            n.right,
        ));
        law_rebalanced(n.left, first, rest);
    }
    if n.left is None && n.right is None {
        assert(without_top(n) == n.left);
    }
}

} // verus!
