//! Unbalanced binary search tree holding an ordered multiset of `i64`
//! values.
//!
//! The abstract state is the in-order sequence of the stored values, which
//! well-formedness keeps sorted. Duplicate values are allowed; a new
//! duplicate is attached in the right subtree of its equal ancestor, so it
//! lands after the earlier equal values in the in-order sequence.
//!
//! Each node owns its children through the `left` and `right` links, and
//! removal repairs links by threading the affected child link through the
//! recursion, so no parent back-links are needed: reachability from the
//! root along one unique path is a consequence of ownership.

use vstd::prelude::*;
use vstd::multiset::Multiset;
use vstd::seq_lib::group_to_multiset_ensures;
use vstd::seq_lib::lemma_multiset_commutative;
use vstd::string::StringExecFns;

use crate::sorted_seqs::all_geq;
use crate::sorted_seqs::all_leq;
use crate::sorted_seqs::lemma_bound_above_after_insert;
use crate::sorted_seqs::lemma_bound_below_after_insert;
use crate::sorted_seqs::lemma_bounds_after_remove;
use crate::sorted_seqs::lemma_concat_contains;
use crate::sorted_seqs::sorted;

verus! {

/// Error returned by `remove` when no stored value compares equal to the
/// requested one. Recoverable; the tree is untouched.
#[derive(Debug, PartialEq, Eq, Structural)]
pub struct NotFound;

struct Node {
    value: i64,
    left: Option<Box<Node>>,
    right: Option<Box<Node>>,
}

pub struct BinarySearchTree {
    root: Option<Box<Node>>,
    num_elements: usize,
}

impl Node {
    /// In-order sequence of an optional subtree.
    spec fn seq_of(node: Option<Box<Node>>) -> Seq<i64>
        decreases node,
    {
        match node {
            None => Seq::empty(),
            Some(n) => n.in_order(),
        }
    }

    /// In-order sequence: left subtree, then the node, then the right
    /// subtree.
    spec fn in_order(self) -> Seq<i64>
        decreases self,
    {
        Node::seq_of(self.left) + seq![self.value] + Node::seq_of(self.right)
    }

    /// The ordering invariant: everything on the left is at most the
    /// node's value, everything on the right at least it, recursively.
    spec fn well_formed(self) -> bool
        decreases self,
    {
        &&& all_leq(Node::seq_of(self.left), self.value)
        &&& all_geq(Node::seq_of(self.right), self.value)
        &&& (match self.left {
            Some(l) => l.well_formed(),
            None => true,
        })
        &&& (match self.right {
            Some(r) => r.well_formed(),
            None => true,
        })
    }

    spec fn opt_well_formed(node: Option<Box<Node>>) -> bool {
        match node {
            Some(n) => n.well_formed(),
            None => true,
        }
    }

    /// A well-formed subtree lists its values in non-decreasing order.
    proof fn lemma_wf_sorted(self)
        requires
            self.well_formed(),
        ensures
            sorted(self.in_order()),
        decreases self,
    {
        let ls = Node::seq_of(self.left);
        let rs = Node::seq_of(self.right);
        if let Some(l) = self.left {
            l.lemma_wf_sorted();
        }
        if let Some(r) = self.right {
            r.lemma_wf_sorted();
        }
        assert forall|i: int, j: int|
            0 <= i <= j < self.in_order().len() implies self.in_order()[i]
            <= self.in_order()[j] by {
            let s = self.in_order();
            let nl = ls.len() as int;
            if j < nl {
                assert(s[i] == ls[i] && s[j] == ls[j]);
            } else if i > nl {
                assert(s[i] == rs[i - nl - 1] && s[j] == rs[j - nl - 1]);
            } else {
                if i < nl {
                    assert(s[i] == ls[i] && s[i] <= self.value);
                } else {
                    assert(s[i] == self.value);
                }
                if j > nl {
                    assert(s[j] == rs[j - nl - 1] && s[j] >= self.value);
                } else {
                    assert(s[j] == self.value);
                }
            }
        }
    }

    /// The multiset of a three-part in-order decomposition.
    proof fn lemma_three_part_multiset(a: Seq<i64>, v: i64, b: Seq<i64>)
        ensures
            (a + seq![v] + b).to_multiset() == a.to_multiset().insert(v).add(b.to_multiset()),
    {
        broadcast use group_to_multiset_ensures;

        lemma_multiset_commutative(a + seq![v], b);
        lemma_multiset_commutative(a, seq![v]);
        assert(seq![v] =~= Seq::<i64>::empty().push(v));
        assert(Seq::<i64>::empty().to_multiset() =~= Multiset::<i64>::empty());
        assert((a + seq![v] + b).to_multiset() =~= a.to_multiset().insert(v).add(
            b.to_multiset(),
        ));
    }

    /// Below a node whose value exceeds `v`, the value can only sit in
    /// the left subtree.
    proof fn lemma_contains_only_left(self, v: i64)
        requires
            self.well_formed(),
            v < self.value,
        ensures
            self.in_order().contains(v) == Node::seq_of(self.left).contains(v),
    {
        lemma_concat_contains(Node::seq_of(self.left), seq![self.value], v);
        lemma_concat_contains(
            Node::seq_of(self.left) + seq![self.value],
            Node::seq_of(self.right),
            v,
        );
        let single = seq![self.value];
        if single.contains(v) {
            let i = choose|i: int| 0 <= i < single.len() && single[i] == v;
            assert(single[i] == v);
        }
        let rs = Node::seq_of(self.right);
        if rs.contains(v) {
            let i = choose|i: int| 0 <= i < rs.len() && rs[i] == v;
            assert(rs[i] >= self.value);
        }
    }

    /// Below a node whose value is under `v`, the value can only sit in
    /// the right subtree.
    proof fn lemma_contains_only_right(self, v: i64)
        requires
            self.well_formed(),
            v > self.value,
        ensures
            self.in_order().contains(v) == Node::seq_of(self.right).contains(v),
    {
        lemma_concat_contains(Node::seq_of(self.left), seq![self.value], v);
        lemma_concat_contains(
            Node::seq_of(self.left) + seq![self.value],
            Node::seq_of(self.right),
            v,
        );
        let single = seq![self.value];
        if single.contains(v) {
            let i = choose|i: int| 0 <= i < single.len() && single[i] == v;
            assert(single[i] == v);
        }
        let ls = Node::seq_of(self.left);
        if ls.contains(v) {
            let i = choose|i: int| 0 <= i < ls.len() && ls[i] == v;
            assert(ls[i] <= self.value);
        }
    }

    /// Attaches one more occurrence of `v` below this node, keeping the
    /// ordering invariant; equal values descend to the right.
    fn insert_node(&mut self, v: i64)
        requires
            old(self).well_formed(),
        ensures
            final(self).well_formed(),
            final(self).in_order().to_multiset() == old(self).in_order().to_multiset().insert(
                v,
            ),
            final(self).in_order().len() == old(self).in_order().len() + 1,
        decreases *old(self),
    {
        if v < self.value {
            Node::insert_into(&mut self.left, v);
            proof {
                broadcast use group_to_multiset_ensures;

                let lold = Node::seq_of(old(self).left);
                let lnew = Node::seq_of(self.left);
                let rs = Node::seq_of(self.right);
                lemma_bound_above_after_insert(lold, lnew, v, self.value);
                Node::lemma_three_part_multiset(lnew, self.value, rs);
                Node::lemma_three_part_multiset(lold, self.value, rs);
                assert(self.in_order().to_multiset() =~= old(self).in_order().to_multiset()
                    .insert(v));
            }
        } else {
            Node::insert_into(&mut self.right, v);
            proof {
                broadcast use group_to_multiset_ensures;

                let rold = Node::seq_of(old(self).right);
                let rnew = Node::seq_of(self.right);
                let ls = Node::seq_of(self.left);
                lemma_bound_below_after_insert(rold, rnew, v, self.value);
                Node::lemma_three_part_multiset(ls, self.value, rnew);
                Node::lemma_three_part_multiset(ls, self.value, rold);
                assert(self.in_order().to_multiset() =~= old(self).in_order().to_multiset()
                    .insert(v));
            }
        }
    }

    /// Inserts into an optional subtree, creating a fresh leaf when it is
    /// empty.
    fn insert_into(node: &mut Option<Box<Node>>, v: i64)
        requires
            Node::opt_well_formed(*old(node)),
        ensures
            Node::opt_well_formed(*final(node)),
            Node::seq_of(*final(node)).to_multiset() == Node::seq_of(*old(node)).to_multiset()
                .insert(v),
            Node::seq_of(*final(node)).len() == Node::seq_of(*old(node)).len() + 1,
        decreases *old(node),
    {
        match node.take() {
            None => {
                *node = Some(Box::new(Node { value: v, left: None, right: None }));
                proof {
                    broadcast use group_to_multiset_ensures;

                    assert(Node::seq_of(*node) =~= Seq::<i64>::empty().push(v));
                    assert(Seq::<i64>::empty().to_multiset() =~= Multiset::<i64>::empty());
                    assert(Node::seq_of(*node).to_multiset() =~= Multiset::<i64>::empty().insert(
                        v,
                    ));
                }
            },
            Some(mut b) => {
                (&mut *b).insert_node(v);
                *node = Some(b);
            },
        }
    }

    /// Detaches the leftmost value of the subtree, handing back the value
    /// and the remainder of the subtree.
    fn take_min(n: Box<Node>) -> (res: (i64, Option<Box<Node>>))
        requires
            n.well_formed(),
        ensures
            Node::opt_well_formed(res.1),
            res.0 == n.in_order()[0],
            Node::seq_of(res.1) == n.in_order().drop_first(),
        decreases *n,
    {
        let nn = *n;
        match nn.left {
            None => {
                proof {
                    assert(n.in_order() =~= seq![nn.value] + Node::seq_of(nn.right));
                    assert(n.in_order()[0] == nn.value);
                    assert(n.in_order().drop_first() =~= Node::seq_of(nn.right));
                }
                (nn.value, nn.right)
            },
            Some(l) => {
                let ghost lseq = l.in_order();
                let (m, l2) = Node::take_min(l);
                let newn = Node { value: nn.value, left: l2, right: nn.right };
                proof {
                    assert(Node::seq_of(newn.left) == lseq.drop_first());
                    assert forall|i: int|
                        0 <= i < lseq.drop_first().len() implies lseq.drop_first()[i]
                        <= nn.value by {
                        assert(lseq.drop_first()[i] == lseq[i + 1]);
                    }
                    assert(newn.in_order() =~= n.in_order().drop_first());
                    assert(n.in_order()[0] == lseq[0]);
                }
                (m, Some(Box::new(newn)))
            },
        }
    }

    /// Removes one occurrence of `v` from the optional subtree, reporting
    /// whether one was found on the search path.
    fn remove_from(node: &mut Option<Box<Node>>, v: i64) -> (removed: bool)
        requires
            Node::opt_well_formed(*old(node)),
        ensures
            Node::opt_well_formed(*final(node)),
            removed == Node::seq_of(*old(node)).contains(v),
            removed ==> Node::seq_of(*final(node)).to_multiset() == Node::seq_of(
                *old(node),
            ).to_multiset().remove(v),
            removed ==> Node::seq_of(*final(node)).len() + 1 == Node::seq_of(*old(node)).len(),
            !removed ==> Node::seq_of(*final(node)) == Node::seq_of(*old(node)),
        decreases *old(node),
    {
        broadcast use group_to_multiset_ensures;

        match node.take() {
            None => {
                proof {
                    assert(!Node::seq_of(*old(node)).contains(v));
                }
                false
            },
            Some(mut b) => {
                if v < b.value {
                    let ghost pre = *b;
                    let removed = Node::remove_from(&mut b.left, v);
                    proof {
                        let lold = Node::seq_of(pre.left);
                        let lnew = Node::seq_of(b.left);
                        let rs = Node::seq_of(b.right);
                        pre.lemma_contains_only_left(v);
                        if removed {
                            lemma_bounds_after_remove(lold, lnew, v, b.value);
                            Node::lemma_three_part_multiset(lnew, b.value, rs);
                            Node::lemma_three_part_multiset(lold, b.value, rs);
                            assert(b.in_order().to_multiset() =~= pre.in_order().to_multiset()
                                .remove(v));
                        } else {
                            assert(b.in_order() =~= pre.in_order());
                        }
                    }
                    *node = Some(b);
                    removed
                } else if v > b.value {
                    let ghost pre = *b;
                    let removed = Node::remove_from(&mut b.right, v);
                    proof {
                        let rold = Node::seq_of(pre.right);
                        let rnew = Node::seq_of(b.right);
                        let ls = Node::seq_of(b.left);
                        pre.lemma_contains_only_right(v);
                        if removed {
                            lemma_bounds_after_remove(rold, rnew, v, b.value);
                            Node::lemma_three_part_multiset(ls, b.value, rnew);
                            Node::lemma_three_part_multiset(ls, b.value, rold);
                            assert(b.in_order().to_multiset() =~= pre.in_order().to_multiset()
                                .remove(v));
                        } else {
                            assert(b.in_order() =~= pre.in_order());
                        }
                    }
                    *node = Some(b);
                    removed
                } else {
                    let ghost pre = *b;
                    let bb = *b;
                    proof {
                        assert(pre.in_order()[Node::seq_of(pre.left).len() as int] == v);
                    }
                    match (bb.left, bb.right) {
                        (None, r) => {
                            proof {
                                let rs = Node::seq_of(r);
                                Node::lemma_three_part_multiset(Seq::empty(), v, rs);
                                assert(pre.in_order() =~= Seq::empty() + seq![v] + rs);
                                assert(rs.to_multiset() =~= pre.in_order().to_multiset().remove(
                                    v,
                                ));
                            }
                            *node = r;
                            true
                        },
                        (Some(l), None) => {
                            proof {
                                let ls = l.in_order();
                                Node::lemma_three_part_multiset(ls, v, Seq::empty());
                                assert(pre.in_order() =~= ls + seq![v] + Seq::<i64>::empty());
                                assert(ls.to_multiset() =~= pre.in_order().to_multiset().remove(
                                    v,
                                ));
                            }
                            *node = Some(l);
                            true
                        },
                        (Some(l), Some(r)) => {
                            let ghost ls = l.in_order();
                            let ghost rs = r.in_order();
                            proof {
                                r.lemma_wf_sorted();
                            }
                            let (m, r2) = Node::take_min(r);
                            let newn = Node { value: m, left: Some(l), right: r2 };
                            proof {
                                let rs1 = rs.drop_first();
                                assert(rs.len() > 0);
                                assert(m == rs[0]);
                                assert(m >= v);
                                assert(all_leq(ls, m));
                                assert forall|i: int| 0 <= i < rs1.len() implies rs1[i] >= m by {
                                    assert(rs1[i] == rs[i + 1]);
                                }
                                assert(newn.well_formed());
                                Node::lemma_three_part_multiset(ls, m, rs1);
                                Node::lemma_three_part_multiset(ls, v, rs);
                                assert(rs =~= seq![m] + rs1);
                                lemma_multiset_commutative(seq![m], rs1);
                                assert(seq![m] =~= Seq::<i64>::empty().push(m));
                                assert(Seq::<i64>::empty().to_multiset()
                                    =~= Multiset::<i64>::empty());
                                assert(newn.in_order().to_multiset() =~= pre.in_order()
                                    .to_multiset().remove(v));
                            }
                            *node = Some(Box::new(newn));
                            true
                        },
                    }
                }
            },
        }
    }

    /// Pre-order sequence: the node, then the left subtree, then the
    /// right subtree.
    spec fn pre_seq(node: Option<Box<Node>>) -> Seq<i64>
        decreases node,
    {
        match node {
            None => Seq::empty(),
            Some(n) => seq![n.value] + Node::pre_seq(n.left) + Node::pre_seq(n.right),
        }
    }

    /// Post-order sequence: the left subtree, then the right subtree,
    /// then the node.
    spec fn post_seq(node: Option<Box<Node>>) -> Seq<i64>
        decreases node,
    {
        match node {
            None => Seq::empty(),
            Some(n) => Node::post_seq(n.left) + Node::post_seq(n.right) + seq![n.value],
        }
    }

    /// All three traversal orders list the same elements.
    proof fn lemma_traversals_agree(node: Option<Box<Node>>)
        ensures
            Node::pre_seq(node).to_multiset() == Node::seq_of(node).to_multiset(),
            Node::post_seq(node).to_multiset() == Node::seq_of(node).to_multiset(),
            Node::pre_seq(node).len() == Node::seq_of(node).len(),
            Node::post_seq(node).len() == Node::seq_of(node).len(),
        decreases node,
    {
        broadcast use group_to_multiset_ensures;

        match node {
            None => {},
            Some(n) => {
                Node::lemma_traversals_agree(n.left);
                Node::lemma_traversals_agree(n.right);
                let ls = Node::seq_of(n.left);
                let rs = Node::seq_of(n.right);
                Node::lemma_three_part_multiset(ls, n.value, rs);
                Node::lemma_three_part_multiset(Seq::empty(), n.value, Node::pre_seq(n.left));
                lemma_multiset_commutative(
                    seq![n.value] + Node::pre_seq(n.left),
                    Node::pre_seq(n.right),
                );
                lemma_multiset_commutative(seq![n.value], Node::pre_seq(n.left));
                lemma_multiset_commutative(
                    Node::post_seq(n.left) + Node::post_seq(n.right),
                    seq![n.value],
                );
                lemma_multiset_commutative(Node::post_seq(n.left), Node::post_seq(n.right));
                assert(seq![n.value] =~= Seq::<i64>::empty().push(n.value));
                assert(Seq::<i64>::empty().to_multiset() =~= Multiset::<i64>::empty());
                assert(Node::pre_seq(node).to_multiset() =~= Node::seq_of(node).to_multiset());
                assert(Node::post_seq(node).to_multiset() =~= Node::seq_of(node).to_multiset());
            },
        }
    }

    /// Appends the in-order listing of the subtree to `out`.
    fn push_in_order(node: &Option<Box<Node>>, out: &mut Vec<i64>)
        ensures
            final(out)@ == old(out)@ + Node::seq_of(*node),
        decreases node,
    {
        match node {
            None => {
                proof {
                    assert(out@ =~= old(out)@ + Node::seq_of(*node));
                }
            },
            Some(n) => {
                Node::push_in_order(&n.left, out);
                out.push(n.value);
                Node::push_in_order(&n.right, out);
                proof {
                    assert(out@ =~= old(out)@ + Node::seq_of(*node));
                }
            },
        }
    }

    /// Appends the pre-order listing of the subtree to `out`.
    fn push_pre_order(node: &Option<Box<Node>>, out: &mut Vec<i64>)
        ensures
            final(out)@ == old(out)@ + Node::pre_seq(*node),
        decreases node,
    {
        match node {
            None => {
                proof {
                    assert(out@ =~= old(out)@ + Node::pre_seq(*node));
                }
            },
            Some(n) => {
                out.push(n.value);
                Node::push_pre_order(&n.left, out);
                Node::push_pre_order(&n.right, out);
                proof {
                    assert(out@ =~= old(out)@ + Node::pre_seq(*node));
                }
            },
        }
    }

    /// Appends the post-order listing of the subtree to `out`.
    fn push_post_order(node: &Option<Box<Node>>, out: &mut Vec<i64>)
        ensures
            final(out)@ == old(out)@ + Node::post_seq(*node),
        decreases node,
    {
        match node {
            None => {
                proof {
                    assert(out@ =~= old(out)@ + Node::post_seq(*node));
                }
            },
            Some(n) => {
                Node::push_post_order(&n.left, out);
                Node::push_post_order(&n.right, out);
                out.push(n.value);
                proof {
                    assert(out@ =~= old(out)@ + Node::post_seq(*node));
                }
            },
        }
    }

    /// Membership check by descending along the search path.
    fn search(node: &Option<Box<Node>>, v: i64) -> (r: bool)
        requires
            Node::opt_well_formed(*node),
        ensures
            r == Node::seq_of(*node).contains(v),
        decreases node,
    {
        match node {
            None => {
                proof {
                    assert(!Node::seq_of(*node).contains(v));
                }
                false
            },
            Some(n) => {
                if v == n.value {
                    proof {
                        assert(n.in_order()[Node::seq_of(n.left).len() as int] == v);
                    }
                    true
                } else if v < n.value {
                    proof {
                        n.lemma_contains_only_left(v);
                    }
                    Node::search(&n.left, v)
                } else {
                    proof {
                        n.lemma_contains_only_right(v);
                    }
                    Node::search(&n.right, v)
                }
            },
        }
    }

    /// Leftmost value of a non-empty subtree: the head of its in-order
    /// sequence.
    fn leftmost(n: &Node) -> (r: i64)
        ensures
            r == n.in_order()[0],
        decreases n,
    {
        match &n.left {
            None => n.value,
            Some(l) => {
                let r = Node::leftmost(l);
                proof {
                    assert(n.in_order()[0] == Node::seq_of(n.left)[0]);
                }
                r
            },
        }
    }

    /// Rightmost value of a non-empty subtree: the last of its in-order
    /// sequence.
    fn rightmost(n: &Node) -> (r: i64)
        ensures
            r == n.in_order().last(),
        decreases n,
    {
        match &n.right {
            None => {
                proof {
                    assert(n.in_order().last() == n.value);
                }
                n.value
            },
            Some(r) => {
                let res = Node::rightmost(r);
                proof {
                    assert(n.in_order().last() == Node::seq_of(n.right).last());
                }
                res
            },
        }
    }
}

/// `k` spaces.
spec fn spaces(k: nat) -> Seq<char>
    decreases k,
{
    if k == 0 {
        Seq::empty()
    } else {
        spaces((k - 1) as nat).push(' ')
    }
}

/// The character for one decimal digit.
spec fn digit_char(d: int) -> char {
    if d == 0 {
        '0'
    } else if d == 1 {
        '1'
    } else if d == 2 {
        '2'
    } else if d == 3 {
        '3'
    } else if d == 4 {
        '4'
    } else if d == 5 {
        '5'
    } else if d == 6 {
        '6'
    } else if d == 7 {
        '7'
    } else if d == 8 {
        '8'
    } else {
        '9'
    }
}

/// Decimal digits of a non-negative number, most significant first.
spec fn dec_digits(x: nat) -> Seq<char>
    decreases x,
{
    if x < 10 {
        seq![digit_char(x as int)]
    } else {
        dec_digits(x / 10).push(digit_char((x % 10) as int))
    }
}

/// Decimal notation of an integer: a minus sign for negative values,
/// then the digits.
spec fn decimal(x: int) -> Seq<char> {
    if x < 0 {
        seq!['-'] + dec_digits((-x) as nat)
    } else {
        dec_digits(x as nat)
    }
}

/// The indented dump of a subtree: per node one line holding two spaces
/// per level of depth, the value in decimal, and a newline; the node
/// first, then its left subtree, then its right subtree.
spec fn render(node: Option<Box<Node>>, depth: nat) -> Seq<char>
    decreases node,
{
    match node {
        None => Seq::empty(),
        Some(n) => spaces(2 * depth) + decimal(n.value as int) + seq!['\n'] + render(
            n.left,
            depth + 1,
        ) + render(n.right, depth + 1),
    }
}

/// Relies on the std `Display` implementation for `i64`: it writes the
/// value in decimal, with a leading `-` for negative values.
#[verifier::external_body]
fn i64_to_string(x: i64) -> (r: String)
    ensures
        r@ == decimal(x as int),
{
    x.to_string()
}

/// Relies on `String::pop`: it removes the last character of the buffer.
#[verifier::external_body]
fn drop_last_char(s: &mut String)
    requires
        old(s)@.len() > 0,
    ensures
        final(s)@ == old(s)@.drop_last(),
{
    s.pop();
}

impl Node {
    /// Appends the indented dump of the subtree to `out`; `indent` must
    /// hold the spaces for the current depth.
    fn render_into(
        node: &Option<Box<Node>>,
        indent: &String,
        out: &mut String,
        Ghost(depth): Ghost<nat>,
    )
        requires
            indent@ == spaces(2 * depth),
        ensures
            final(out)@ == old(out)@ + render(*node, depth),
        decreases node,
    {
        match node {
            None => {
                proof {
                    assert(out@ =~= old(out)@ + render(*node, depth));
                }
            },
            Some(n) => {
                out.append(indent.as_str());
                let vs = i64_to_string(n.value);
                out.append(vs.as_str());
                out.append("\n");
                proof {
                    reveal_strlit("\n");
                }
                let mut child = indent.clone();
                child.append("  ");
                proof {
                    reveal_strlit("  ");
                    assert(spaces(2 * depth + 2) == spaces(2 * depth + 1).push(' '));
                    assert(spaces(2 * depth + 1) == spaces(2 * depth).push(' '));
                    assert(child@ =~= spaces(2 * (depth + 1)));
                }
                Node::render_into(&n.left, &child, out, Ghost(depth + 1));
                Node::render_into(&n.right, &child, out, Ghost(depth + 1));
                proof {
                    assert(out@ =~= old(out)@ + render(*node, depth));
                }
            },
        }
    }
}

impl BinarySearchTree {
    /// The abstract contents: the in-order sequence of stored values.
    pub closed spec fn view(&self) -> Seq<i64> {
        Node::seq_of(self.root)
    }

    /// The structural invariant: the ordering property holds everywhere
    /// and the cached element count matches the contents.
    pub closed spec fn well_formed(&self) -> bool {
        &&& Node::opt_well_formed(self.root)
        &&& self.num_elements == self@.len()
    }

    /// A well-formed tree lists its contents in non-decreasing order.
    pub proof fn lemma_in_order_sorted(&self)
        requires
            self.well_formed(),
        ensures
            sorted(self@),
    {
        if let Some(n) = self.root {
            n.lemma_wf_sorted();
        }
    }

    /// An empty tree.
    pub fn new() -> (t: Self)
        ensures
            t.well_formed(),
            t@ == Seq::<i64>::empty(),
    {
        BinarySearchTree { root: None, num_elements: 0 }
    }

    /// The number of stored values.
    pub fn count(&self) -> (r: usize)
        requires
            self.well_formed(),
        ensures
            r == self@.len(),
    {
        self.num_elements
    }

    /// Stores one more occurrence of `value`; never fails.
    pub fn insert(&mut self, value: i64)
        requires
            old(self).well_formed(),
            old(self)@.len() < usize::MAX,
        ensures
            final(self).well_formed(),
            final(self)@.to_multiset() == old(self)@.to_multiset().insert(value),
            final(self)@.len() == old(self)@.len() + 1,
            final(self)@.contains(value),
            sorted(final(self)@),
    {
        Node::insert_into(&mut self.root, value);
        self.num_elements = self.num_elements + 1;
        proof {
            broadcast use group_to_multiset_ensures;

            self.lemma_in_order_sorted();
            vstd::multiset::lemma_insert_increases_count_by_1(
                old(self)@.to_multiset(),
                value,
            );
            assert(self@.to_multiset().count(value) > 0);
        }
    }

    /// Removes one occurrence of `value`. Fails with `NotFound`, leaving
    /// the tree unchanged, exactly when no stored value compares equal to
    /// `value`; on success the count goes down by one and the remaining
    /// contents are the old contents less one occurrence of `value`.
    pub fn remove(&mut self, value: i64) -> (r: Result<(), NotFound>)
        requires
            old(self).well_formed(),
        ensures
            final(self).well_formed(),
            r is Ok <==> old(self)@.contains(value),
            old(self)@.contains(value) ==> final(self)@.to_multiset() == old(
                self,
            )@.to_multiset().remove(value) && final(self)@.len() + 1 == old(self)@.len(),
            !old(self)@.contains(value) ==> final(self)@ == old(self)@,
            sorted(final(self)@),
    {
        let removed = Node::remove_from(&mut self.root, value);
        proof {
            if let Some(n) = &self.root {
                n.lemma_wf_sorted();
            }
        }
        if removed {
            self.num_elements = self.num_elements - 1;
            Ok(())
        } else {
            Err(NotFound)
        }
    }

    /// True exactly when some stored value compares equal to `value`.
    pub fn contents(&self, value: i64) -> (r: bool)
        requires
            self.well_formed(),
        ensures
            r == self@.contains(value),
    {
        Node::search(&self.root, value)
    }

    /// The smallest stored value, `None` on an empty tree.
    pub fn min(&self) -> (r: Option<i64>)
        requires
            self.well_formed(),
        ensures
            self@.len() == 0 ==> r is None,
            self@.len() > 0 ==> r == Some(self@[0]),
    {
        match &self.root {
            None => None,
            Some(n) => Some(Node::leftmost(n)),
        }
    }

    /// The largest stored value, `None` on an empty tree.
    pub fn max(&self) -> (r: Option<i64>)
        requires
            self.well_formed(),
        ensures
            self@.len() == 0 ==> r is None,
            self@.len() > 0 ==> r == Some(self@.last()),
    {
        match &self.root {
            None => None,
            Some(n) => Some(Node::rightmost(n)),
        }
    }

    /// The pre-order listing of the contents.
    pub closed spec fn pre_order(&self) -> Seq<i64> {
        Node::pre_seq(self.root)
    }

    /// The post-order listing of the contents.
    pub closed spec fn post_order(&self) -> Seq<i64> {
        Node::post_seq(self.root)
    }

    /// The indented pre-order dump of the contents, one line per node,
    /// ending in a newline.
    pub closed spec fn rendered(&self) -> Seq<char> {
        render(self.root, 0)
    }

    /// The stored values in ascending order; equal values keep their
    /// insertion order.
    pub fn infix_traverse(&self) -> (r: Vec<i64>)
        requires
            self.well_formed(),
        ensures
            r@ == self@,
            sorted(r@),
    {
        let mut out: Vec<i64> = Vec::new();
        Node::push_in_order(&self.root, &mut out);
        proof {
            assert(out@ =~= self@);
            self.lemma_in_order_sorted();
        }
        out
    }

    /// The stored values in pre-order: each node before its subtrees,
    /// left subtree before right. Lists the same elements as the
    /// in-order traversal.
    pub fn prefix_traverse(&self) -> (r: Vec<i64>)
        requires
            self.well_formed(),
        ensures
            r@ == self.pre_order(),
            r@.to_multiset() == self@.to_multiset(),
            r@.len() == self@.len(),
    {
        let mut out: Vec<i64> = Vec::new();
        Node::push_pre_order(&self.root, &mut out);
        proof {
            assert(out@ =~= self.pre_order());
            Node::lemma_traversals_agree(self.root);
        }
        out
    }

    /// The stored values in post-order: each node after its subtrees,
    /// left subtree before right. Lists the same elements as the
    /// in-order traversal.
    pub fn postfix_traverse(&self) -> (r: Vec<i64>)
        requires
            self.well_formed(),
        ensures
            r@ == self.post_order(),
            r@.to_multiset() == self@.to_multiset(),
            r@.len() == self@.len(),
    {
        let mut out: Vec<i64> = Vec::new();
        Node::push_post_order(&self.root, &mut out);
        proof {
            assert(out@ =~= self.post_order());
            Node::lemma_traversals_agree(self.root);
        }
        out
    }

    /// The indented dump: one line per node in pre-order, indented by two
    /// spaces per level of depth, without a trailing newline. An empty
    /// tree prints as `empty tree`.
    pub fn format(&self) -> (r: String)
        requires
            self.well_formed(),
        ensures
            self@.len() == 0 ==> r@ == "empty tree"@,
            self@.len() > 0 ==> r@ == self.rendered().drop_last(),
    {
        if self.num_elements == 0 {
            proof {
                assert(self.root is None);
            }
            "empty tree".to_owned()
        } else {
            let mut out = String::new();
            let ind = String::new();
            proof {
                assert(ind@ =~= spaces(0));
            }
            Node::render_into(&self.root, &ind, &mut out, Ghost(0));
            proof {
                assert(self.rendered().len() > 0);
            }
            drop_last_char(&mut out);
            out
        }
    }
}

} // verus!
