//! A multiset of half-open intervals `[start, end)` over `u64`, stored as an
//! unbalanced binary tree ordered by interval start, with each node carrying
//! the maximum interval end found in its subtree. The structure answers
//! stabbing queries: how many stored intervals contain a given point.

use vstd::prelude::*;

verus! {

use vstd::seq_lib::*;

/// True when the half-open interval `iv` contains the point `p`.
pub open spec fn stabs(iv: (u64, u64), p: u64) -> bool {
    iv.0 <= p && p < iv.1
}

/// The number of intervals in `s` that contain the point `p`.
pub open spec fn stab_count(s: Seq<(u64, u64)>, p: u64) -> nat {
    s.filter(|iv: (u64, u64)| stabs(iv, p)).len()
}

/// The larger of `a` and `b`.
pub open spec fn end_max(a: u64, b: u64) -> u64 {
    if b > a {
        b
    } else {
        a
    }
}

/// Every interval in `s` ends at or before `b`.
pub open spec fn all_ends_le(s: Seq<(u64, u64)>, b: u64) -> bool {
    forall|i: int| 0 <= i < s.len() ==> (#[trigger] s[i]).1 <= b
}

/// Some interval in `s` ends exactly at `b`.
pub open spec fn some_end_eq(s: Seq<(u64, u64)>, b: u64) -> bool {
    exists|i: int| 0 <= i < s.len() && (#[trigger] s[i]).1 == b
}

/// Every interval in `s` starts strictly before `b`.
pub open spec fn all_starts_lt(s: Seq<(u64, u64)>, b: u64) -> bool {
    forall|i: int| 0 <= i < s.len() ==> (#[trigger] s[i]).0 < b
}

/// Every interval in `s` starts at or after `b`.
pub open spec fn all_starts_ge(s: Seq<(u64, u64)>, b: u64) -> bool {
    forall|i: int| 0 <= i < s.len() ==> (#[trigger] s[i]).0 >= b
}

struct Node {
    start: u64,
    end: u64,
    max_end: u64,
    left: Option<Box<Node>>,
    right: Option<Box<Node>>,
}

/// Multiset of intervals with stabbing-query counting.
pub struct IntervalTree {
    root: Option<Box<Node>>,
}

impl Node {
    /// The intervals stored in an optional subtree, in symmetric order.
    spec fn opt_intervals(node_opt: Option<Box<Node>>) -> Seq<(u64, u64)>
        decreases node_opt,
    {
        match node_opt {
            None => Seq::empty(),
            Some(node) => node.intervals(),
        }
    }

    /// The intervals stored in this subtree, in symmetric order.
    spec fn intervals(self) -> Seq<(u64, u64)>
        decreases self,
    {
        Node::opt_intervals(self.left) + seq![(self.start, self.end)] + Node::opt_intervals(
            self.right,
        )
    }

    spec fn opt_wf(node_opt: Option<Box<Node>>) -> bool
        decreases node_opt,
    {
        match node_opt {
            None => true,
            Some(node) => node.wf(),
        }
    }

    /// Structural invariant: intervals are non-empty, `max_end` is the exact
    /// maximum interval end of the subtree, and the left (right) subtree holds
    /// only intervals whose start is below (at or above) this node's start.
    spec fn wf(self) -> bool
        decreases self,
    {
        &&& self.start < self.end
        &&& all_ends_le(self.intervals(), self.max_end)
        &&& some_end_eq(self.intervals(), self.max_end)
        &&& all_starts_lt(Node::opt_intervals(self.left), self.start)
        &&& all_starts_ge(Node::opt_intervals(self.right), self.start)
        &&& Node::opt_wf(self.left)
        &&& Node::opt_wf(self.right)
    }

    fn new(start: u64, end: u64) -> (node: Node)
        requires
            start < end,
        ensures
            node.wf(),
            node.intervals() =~= seq![(start, end)],
            node.left is None,
            node.right is None,
            node.max_end == end,
    {
        let node = Node { start, end, max_end: end, left: None, right: None };
        proof {
            assert(node.intervals() =~= seq![(start, end)]);
            assert(node.intervals()[0] == (start, end));
        }
        node
    }

    fn insert_opt(node_opt: &mut Option<Box<Node>>, start: u64, end: u64)
        requires
            Node::opt_wf(*old(node_opt)),
            start < end,
        ensures
            Node::opt_wf(*final(node_opt)),
            exists|i: int|
                0 <= i <= Node::opt_intervals(*old(node_opt)).len() && Node::opt_intervals(
                    *final(node_opt),
                ) == Node::opt_intervals(*old(node_opt)).insert(i, (start, end)),
        decreases *old(node_opt),
    {
        match node_opt.take() {
            None => {
                let node = Node::new(start, end);
                *node_opt = Some(Box::new(node));
                proof {
                    let empty = Seq::<(u64, u64)>::empty();
                    assert(Node::opt_intervals(*node_opt) =~= empty.insert(0, (start, end)));
                }
            },
            Some(mut boxed_node) => {
                let ghost pre = *boxed_node;
                (&mut *boxed_node).insert(start, end);
                *node_opt = Some(boxed_node);
                proof {
                    let j = choose|i: int|
                        0 <= i <= pre.intervals().len() && node_opt.unwrap().intervals()
                            == pre.intervals().insert(i, (start, end));
                    assert(Node::opt_intervals(*old(node_opt)) == pre.intervals());
                    assert(Node::opt_intervals(*node_opt) == Node::opt_intervals(
                        *old(node_opt),
                    ).insert(j, (start, end)));
                }
            },
        }
    }

    fn insert(&mut self, start: u64, end: u64)
        requires
            old(self).wf(),
            start < end,
        ensures
            final(self).wf(),
            exists|i: int|
                0 <= i <= old(self).intervals().len() && final(self).intervals() == old(
                    self,
                ).intervals().insert(i, (start, end)),
            final(self).max_end == end_max(old(self).max_end, end),
        decreases *old(self),
    {
        let ghost pre = *self;
        let iv = (start, end);
        if end > self.max_end {
            self.max_end = end;
        }
        if start >= self.start {
            Node::insert_opt(&mut self.right, start, end);
            proof {
                let l = Node::opt_intervals(pre.left);
                let m = seq![(pre.start, pre.end)];
                let r = Node::opt_intervals(pre.right);
                let whole = pre.intervals();
                let j = choose|j: int|
                    0 <= j <= r.len() && Node::opt_intervals(self.right) == r.insert(j, iv);
                r.insert_ensures(j, iv);
                lemma_concat_insert_high(l, m, r, j, iv);
                let pos = l.len() + 1 + j;
                assert(self.intervals() == whole.insert(pos, iv));
                whole.insert_ensures(pos, iv);
                lemma_inserted_wf(whole, pos, iv, pre.max_end, self.max_end);
                assert(self.wf());
                assert(0 <= pos <= whole.len() && self.intervals() == whole.insert(pos, iv));
            }
        } else {
            Node::insert_opt(&mut self.left, start, end);
            proof {
                let l = Node::opt_intervals(pre.left);
                let m = seq![(pre.start, pre.end)];
                let r = Node::opt_intervals(pre.right);
                let whole = pre.intervals();
                let j = choose|j: int|
                    0 <= j <= l.len() && Node::opt_intervals(self.left) == l.insert(j, iv);
                l.insert_ensures(j, iv);
                lemma_concat_insert_low(l, m, r, j, iv);
                assert(self.intervals() == whole.insert(j, iv));
                whole.insert_ensures(j, iv);
                lemma_inserted_wf(whole, j, iv, pre.max_end, self.max_end);
                assert(self.wf());
                assert(0 <= j <= whole.len() && self.intervals() == whole.insert(j, iv));
            }
        }
    }

    fn query(&self, point: u64) -> (r: usize)
        requires
            self.wf(),
            self.intervals().len() <= usize::MAX,
        ensures
            r == stab_count(self.intervals(), point),
        decreases *self,
    {
        proof {
            broadcast use Seq::filter_distributes_over_add;
            broadcast use Seq::lemma_filter_len;

            lemma_stab_count_singleton((self.start, self.end), point);
        }
        if point >= self.max_end {
            proof {
                lemma_stab_count_outside(self.intervals(), point);
            }
            return 0;
        }
        let mut num_matches: usize = 0;
        if let Some(left) = &self.left {
            num_matches = num_matches + left.query(point);
        }
        if self.start <= point && point < self.end {
            num_matches = num_matches + 1;
        }
        if let Some(right) = &self.right {
            num_matches = num_matches + right.query(point);
        }
        num_matches
    }

    fn count(&self) -> (r: usize)
        requires
            self.wf(),
            self.intervals().len() <= usize::MAX,
        ensures
            r == self.intervals().len(),
        decreases *self,
    {
        let mut res: usize = 0;
        if let Some(left) = &self.left {
            res = res + left.count();
        }
        res = res + 1;
        if let Some(right) = &self.right {
            res = res + right.count();
        }
        res
    }
}

/// Inserting into the last of three concatenated sequences is an insertion
/// into the concatenation, at an offset position.
proof fn lemma_concat_insert_high<A>(l: Seq<A>, m: Seq<A>, r: Seq<A>, j: int, x: A)
    requires
        0 <= j <= r.len(),
    ensures
        l + m + r.insert(j, x) =~= (l + m + r).insert(l.len() + m.len() + j, x),
{
    r.insert_ensures(j, x);
    (l + m + r).insert_ensures(l.len() + m.len() + j, x);
}

/// Inserting into the first of three concatenated sequences is an insertion
/// into the concatenation, at the same position.
proof fn lemma_concat_insert_low<A>(l: Seq<A>, m: Seq<A>, r: Seq<A>, j: int, x: A)
    requires
        0 <= j <= l.len(),
    ensures
        l.insert(j, x) + m + r =~= (l + m + r).insert(j, x),
{
    l.insert_ensures(j, x);
    (l + m + r).insert_ensures(j, x);
}

/// The end bounds of a sequence survive an insertion whose new interval fits
/// under the (possibly raised) bound.
proof fn lemma_inserted_wf(s: Seq<(u64, u64)>, pos: int, iv: (u64, u64), pre_max: u64, new_max: u64)
    requires
        0 <= pos <= s.len(),
        all_ends_le(s, pre_max),
        some_end_eq(s, pre_max),
        new_max == end_max(pre_max, iv.1),
    ensures
        all_ends_le(s.insert(pos, iv), new_max),
        some_end_eq(s.insert(pos, iv), new_max),
{
    let t = s.insert(pos, iv);
    s.insert_ensures(pos, iv);
    assert forall|k: int| 0 <= k < t.len() implies (#[trigger] t[k]).1 <= new_max by {
        if k < pos {
            assert(t[k] == s[k]);
        } else if k == pos {
            assert(t[k] == iv);
        } else {
            assert(t[k] == s[k - 1]);
        }
    }
    if iv.1 > pre_max {
        assert(t[pos].1 == new_max);
    } else {
        let i0 = choose|i: int| 0 <= i < s.len() && (#[trigger] s[i]).1 == pre_max;
        if i0 < pos {
            assert(t[i0].1 == new_max);
        } else {
            assert(t[i0 + 1].1 == new_max);
        }
    }
}

impl IntervalTree {
    /// The stored intervals, as a sequence in the tree's symmetric order.
    pub closed spec fn view(self) -> Seq<(u64, u64)> {
        Node::opt_intervals(self.root)
    }

    /// Structural invariant of the tree.
    pub closed spec fn wf(self) -> bool {
        Node::opt_wf(self.root) && self.view().len() <= usize::MAX
    }

    pub fn new() -> (tree: IntervalTree)
        ensures
            tree.wf(),
            tree.view() =~= Seq::<(u64, u64)>::empty(),
    {
        IntervalTree { root: None }
    }

    /// Stores the half-open interval `[start, end)`. An interval with
    /// `start >= end` would be empty; it is rejected and the tree is left
    /// unchanged.
    pub fn insert(&mut self, start: u64, end: u64) -> (res: Result<(), ()>)
        requires
            old(self).wf(),
            old(self).view().len() < usize::MAX,
        ensures
            final(self).wf(),
            start < end ==> res is Ok && (exists|i: int|
                0 <= i <= old(self).view().len() && final(self).view() == old(self).view().insert(
                    i,
                    (start, end),
                )),
            start >= end ==> res is Err && *final(self) == *old(self),
    {
        if start >= end {
            return Err(());
        }
        Node::insert_opt(&mut self.root, start, end);
        proof {
            let j = choose|j: int|
                0 <= j <= old(self).view().len() && self.view() == old(self).view().insert(
                    j,
                    (start, end),
                );
            old(self).view().insert_ensures(j, (start, end));
        }
        Ok(())
    }

    /// Counts the stored intervals that contain `point`.
    pub fn query(&self, point: u64) -> (r: usize)
        requires
            self.wf(),
        ensures
            r == stab_count(self.view(), point),
    {
        match &self.root {
            Some(root) => root.query(point),
            None => {
                proof {
                    reveal(Seq::filter);
                }
                0
            },
        }
    }

    /// The number of stored intervals.
    pub fn count(&self) -> (r: usize)
        requires
            self.wf(),
        ensures
            r == self.view().len(),
    {
        match &self.root {
            Some(root) => root.count(),
            None => 0,
        }
    }
}

/// Law: inserting an interval anywhere in the sequence raises the stabbing
/// count at `p` by one exactly when the new interval contains `p`, and leaves
/// it unchanged otherwise.
pub proof fn lemma_stab_count_insert(s: Seq<(u64, u64)>, i: int, iv: (u64, u64), p: u64)
    requires
        0 <= i <= s.len(),
    ensures
        stab_count(s.insert(i, iv), p) == stab_count(s, p) + (if stabs(iv, p) {
            1nat
        } else {
            0nat
        }),
{
    broadcast use Seq::filter_distributes_over_add;

    lemma_stab_count_singleton(iv, p);
    assert(s.insert(i, iv) == s.subrange(0, i).push(iv) + s.subrange(i, s.len() as int));
    assert(s.subrange(0, i).push(iv) =~= s.subrange(0, i) + seq![iv]);
    assert(s =~= s.subrange(0, i) + s.subrange(i, s.len() as int));
}

/// Law: a point outside every stored interval has stabbing count zero.
pub proof fn lemma_stab_count_outside(s: Seq<(u64, u64)>, p: u64)
    requires
        forall|i: int| 0 <= i < s.len() ==> !stabs(#[trigger] s[i], p),
    ensures
        stab_count(s, p) == 0,
{
    let pred = |iv: (u64, u64)| stabs(iv, p);
    assert(s.all(|iv: (u64, u64)| !pred(iv)));
    s.lemma_all_neg_filter_empty(pred);
}

proof fn lemma_stab_count_singleton(iv: (u64, u64), p: u64)
    ensures
        stab_count(seq![iv], p) == (if stabs(iv, p) {
            1nat
        } else {
            0nat
        }),
{
    broadcast use Seq::lemma_filter_push;

    let pred = |x: (u64, u64)| stabs(x, p);
    assert(seq![iv] =~= Seq::<(u64, u64)>::empty().push(iv));
    assert(Seq::<(u64, u64)>::empty().filter(pred) =~= Seq::<(u64, u64)>::empty()) by {
        reveal(Seq::filter);
    }
}

} // verus!
