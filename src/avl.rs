use vstd::prelude::*;
use crate::linklist::{has_id, is_first_with_id, LinkList};
use crate::task::Task;

verus! {

/// A rank-keyed AVL tree. Each node owns the bucket of the tasks that share
/// its rank; the empty tree is a single node without a bucket.
pub struct AvlTree {
    val: Option<LinkList>,
    height: i32,
    left: Option<Box<AvlTree>>,
    right: Option<Box<AvlTree>>,
}

/// The tree's contents after `t` is inserted: appended to the bucket of its
/// rank, or put in a new bucket of its own.
pub open spec fn inserted(m: Map<i32, Seq<Task>>, t: Task) -> Map<i32, Seq<Task>> {
    m.insert(t.rank, if m.contains_key(t.rank) { m[t.rank].push(t) } else { seq![t] })
}

/// The tree's contents after the task at index `i` of the bucket of `rank`
/// is removed; a bucket left empty takes its rank out of the tree.
pub open spec fn after_delete(m: Map<i32, Seq<Task>>, rank: i32, i: int) -> Map<i32, Seq<Task>> {
    let b = m[rank].remove(i);
    if b.len() == 0 {
        m.remove(rank)
    } else {
        m.insert(rank, b)
    }
}

/// A bucket fit for a tree node: well formed, not empty, one rank throughout.
pub closed spec fn bucket_ok(ll: LinkList) -> bool {
    &&& ll.wf()
    &&& ll@.len() > 0
    &&& forall|i: int| 0 <= i < ll@.len() ==> (#[trigger] ll@[i]).rank == ll@[0].rank
}

/// The cached height of an optional subtree; 0 when there is none.
pub closed spec fn opt_height(t: Option<Box<AvlTree>>) -> int {
    match t {
        None => 0,
        Some(b) => b.height as int,
    }
}

/// What an optional subtree holds; empty when there is none.
pub closed spec fn opt_map(t: Option<Box<AvlTree>>) -> Map<i32, Seq<Task>>
    decreases t,
{
    match t {
        None => Map::empty(),
        Some(b) => b.as_map(),
    }
}

/// The in-order ranks of an optional subtree.
pub closed spec fn opt_ranks(t: Option<Box<AvlTree>>) -> Seq<i32>
    decreases t,
{
    match t {
        None => Seq::empty(),
        Some(b) => b.in_order(),
    }
}

/// An optional subtree is absent or satisfies `tree_ok`.
pub closed spec fn opt_ok(t: Option<Box<AvlTree>>) -> bool
    decreases t,
{
    match t {
        None => true,
        Some(b) => b.tree_ok(),
    }
}

/// An optional subtree is absent or satisfies `avl`.
pub closed spec fn opt_avl(t: Option<Box<AvlTree>>) -> bool
    decreases t,
{
    match t {
        None => true,
        Some(b) => b.avl(),
    }
}

/// The larger of two integers.
pub open spec fn max_int(a: int, b: int) -> int {
    if a >= b { a } else { b }
}

impl View for AvlTree {
    type V = Map<i32, Seq<Task>>;

    /// Each rank in the tree mapped to the tasks of its bucket, oldest first.
    closed spec fn view(&self) -> Map<i32, Seq<Task>> {
        self.as_map()
    }
}

impl AvlTree {
    /// The rank of this node's bucket.
    pub closed spec fn key(self) -> i32 {
        self.val.unwrap()@[0].rank
    }

    /// The tasks of this node's own bucket.
    pub closed spec fn node_bucket(self) -> Seq<Task> {
        self.val.unwrap()@
    }

    /// The cached height of this node.
    pub closed spec fn spec_height(self) -> int {
        self.height as int
    }

    /// Each rank of this (sub)tree mapped to the tasks of its bucket.
    pub closed spec fn as_map(self) -> Map<i32, Seq<Task>>
        decreases self,
    {
        match self.val {
            None => Map::empty(),
            Some(ll) => opt_map(self.left).union_prefer_right(opt_map(self.right)).insert(
                ll@[0].rank,
                ll@,
            ),
        }
    }

    /// The ranks of the nodes, read in order (left subtree, node, right subtree).
    pub closed spec fn in_order(self) -> Seq<i32>
        decreases self,
    {
        match self.val {
            None => Seq::empty(),
            Some(ll) => opt_ranks(self.left) + seq![ll@[0].rank] + opt_ranks(self.right),
        }
    }

    /// This node alone: its bucket is fit, the ranks on its left are smaller
    /// and those on its right larger, and its height is one more than its
    /// taller child's.
    closed spec fn node_ok(self) -> bool {
        &&& self.val is Some
        &&& bucket_ok(self.val.unwrap())
        &&& forall|k: i32| #[trigger] opt_map(self.left).contains_key(k) ==> k < self.key()
        &&& forall|k: i32| #[trigger] opt_map(self.right).contains_key(k) ==> k > self.key()
        &&& opt_height(self.left) >= 0
        &&& opt_height(self.right) >= 0
        &&& self.height == 1 + max_int(opt_height(self.left), opt_height(self.right))
    }

    /// Every node of this (non-empty) subtree satisfies `node_ok`.
    pub closed spec fn tree_ok(self) -> bool
        decreases self,
    {
        &&& self.node_ok()
        &&& opt_ok(self.left)
        &&& opt_ok(self.right)
    }

    /// The heights of the two children of every node differ by at most one.
    pub closed spec fn avl(self) -> bool
        decreases self,
    {
        &&& -1 <= opt_height(self.left) - opt_height(self.right) <= 1
        &&& opt_avl(self.left)
        &&& opt_avl(self.right)
    }

    /// Every node of the tree has children whose heights differ by at most one.
    pub closed spec fn is_avl_balanced(self) -> bool {
        self.val is None || self.avl()
    }

    /// The tree is well formed: either the empty tree, or a non-empty search
    /// tree with exact heights, fit buckets and the AVL balance.
    pub closed spec fn wf(self) -> bool {
        match self.val {
            None => self.left is None && self.right is None && self.height == 1,
            Some(_) => self.tree_ok() && self.avl(),
        }
    }

    /// The empty tree.
    pub fn new() -> (t: Self)
        ensures
            t.wf(),
            t@ == Map::<i32, Seq<Task>>::empty(),
            t.spec_height() == 1,
    {
        AvlTree { val: None, height: 1, left: None, right: None }
    }

    /// Whether the tree holds no rank at all.
    pub fn is_empty(&self) -> (r: bool)
        requires
            self.wf(),
        ensures
            r == (self@ == Map::<i32, Seq<Task>>::empty()),
    {
        if self.val.is_none() {
            true
        } else {
            assert(self@.contains_key(self.key()));
            false
        }
    }

    /// The cached height: 1 for the empty tree and for a single node.
    pub fn height(&self) -> (r: i32)
        ensures
            r == self.spec_height(),
    {
        self.height
    }

    /// The bucket held by this node; `None` for the empty tree.
    pub fn bucket(&self) -> (r: Option<&LinkList>)
        requires
            self.wf(),
        ensures
            r is None <==> self@ == Map::<i32, Seq<Task>>::empty(),
            r matches Some(ll) ==> ll.wf() && ll@ == self.node_bucket() && ll@.len() > 0 && self@.contains_key(
                ll@[0].rank,
            ) && self@[ll@[0].rank] == ll@,
    {
        match &self.val {
            None => None,
            Some(ll) => {
                assert(self@.contains_key(self.key()));
                Some(ll)
            },
        }
    }

    /// The cached height of an optional child; 0 when there is none.
    fn child_height(t: &Option<Box<AvlTree>>) -> (r: i32)
        ensures
            r == opt_height(*t),
    {
        match t {
            Some(b) => b.height,
            None => 0,
        }
    }

    /// Recomputes this node's height from its children's cached heights.
    fn update_height(&mut self)
        requires
            opt_height(old(self).left) < i32::MAX,
            opt_height(old(self).right) < i32::MAX,
        ensures
            final(self).height == 1 + max_int(opt_height(old(self).left), opt_height(old(self).right)),
            final(self).val == old(self).val,
            final(self).left == old(self).left,
            final(self).right == old(self).right,
    {
        let lh = Self::child_height(&self.left);
        let rh = Self::child_height(&self.right);
        self.height = 1 + if lh >= rh {
            lh
        } else {
            rh
        };
    }

    /// Left height minus right height.
    fn balance_factor(&self) -> (r: i32)
        requires
            0 <= opt_height(self.left) < i32::MAX,
            0 <= opt_height(self.right) < i32::MAX,
        ensures
            r == opt_height(self.left) - opt_height(self.right),
    {
        Self::child_height(&self.left) - Self::child_height(&self.right)
    }

    /// Promotes the left child: it takes this node's place, this node becomes
    /// its right child and takes over its former right subtree.
    fn rotate_right(&mut self)
        requires
            old(self).val is Some,
            bucket_ok(old(self).val.unwrap()),
            old(self).left is Some,
            old(self).left.unwrap().tree_ok(),
            opt_ok(old(self).right),
            forall|k: i32| #[trigger] opt_map(old(self).left).contains_key(k) ==> k < old(self).key(),
            forall|k: i32| #[trigger] opt_map(old(self).right).contains_key(k) ==> k > old(self).key(),
            opt_height(old(self).left) < i32::MAX,
            opt_height(old(self).right) < i32::MAX - 1,
        ensures
            ({
                let l = old(self).left.unwrap();
                let r = final(self).right.unwrap();
                &&& final(self).val == l.val
                &&& final(self).left == l.left
                &&& final(self).right is Some
                &&& r.val == old(self).val
                &&& r.left == l.right
                &&& r.right == old(self).right
                &&& r.height == 1 + max_int(opt_height(l.right), opt_height(old(self).right))
                &&& final(self).height == 1 + max_int(opt_height(l.left), r.height as int)
            }),
            final(self).tree_ok(),
            final(self).as_map() == old(self).as_map(),
    {
        let mut l = self.left.take().unwrap();
        let ghost l0 = *l;
        proof {
            assert(l0.tree_ok());
            assert(opt_ok(l0.left) && opt_ok(l0.right));
        }
        let lval = l.val.take();
        let ll = l.left.take();
        let lr = l.right.take();
        l.val = self.val.take();
        l.left = lr;
        l.right = self.right.take();
        l.update_height();
        self.val = lval;
        self.left = ll;
        self.right = Some(l);
        self.update_height();
        proof {
            let a = opt_map(l0.left);
            let b = opt_map(l0.right);
            let c = opt_map(old(self).right);
            let k = old(self).key();
            let lk = l0.key();
            assert(opt_map(old(self).left) == l0.as_map());
            assert(l0.as_map().contains_key(lk));
            assert forall|x: i32| #[trigger] b.contains_key(x) implies lk < x && x < k by {
                assert(l0.as_map().contains_key(x));
            }
            assert forall|x: i32| #[trigger] a.contains_key(x) implies x < lk by {}
            let r = *self.right.unwrap();
            assert(r.node_ok());
            assert(r.tree_ok());
            assert(r.as_map() == b.union_prefer_right(c).insert(k, old(self).val.unwrap()@));
            assert(opt_map(self.right) == r.as_map());
            assert forall|x: i32| #[trigger] opt_map(self.right).contains_key(x) implies x > lk by {
                if b.contains_key(x) {
                } else if c.contains_key(x) {
                } else {
                }
            }
            assert(self.node_ok());
            assert(self.as_map() =~= old(self).as_map());
        }
    }

    /// Promotes the right child: it takes this node's place, this node becomes
    /// its left child and takes over its former left subtree.
    fn rotate_left(&mut self)
        requires
            old(self).val is Some,
            bucket_ok(old(self).val.unwrap()),
            old(self).right is Some,
            old(self).right.unwrap().tree_ok(),
            opt_ok(old(self).left),
            forall|k: i32| #[trigger] opt_map(old(self).right).contains_key(k) ==> k > old(self).key(),
            forall|k: i32| #[trigger] opt_map(old(self).left).contains_key(k) ==> k < old(self).key(),
            opt_height(old(self).right) < i32::MAX,
            opt_height(old(self).left) < i32::MAX - 1,
        ensures
            ({
                let rc = old(self).right.unwrap();
                let lc = final(self).left.unwrap();
                &&& final(self).val == rc.val
                &&& final(self).right == rc.right
                &&& final(self).left is Some
                &&& lc.val == old(self).val
                &&& lc.right == rc.left
                &&& lc.left == old(self).left
                &&& lc.height == 1 + max_int(opt_height(rc.left), opt_height(old(self).left))
                &&& final(self).height == 1 + max_int(opt_height(rc.right), lc.height as int)
            }),
            final(self).tree_ok(),
            final(self).as_map() == old(self).as_map(),
    {
        let mut r = self.right.take().unwrap();
        let ghost l0 = *r;
        proof {
            assert(l0.tree_ok());
            assert(opt_ok(l0.right) && opt_ok(l0.left));
        }
        let rval = r.val.take();
        let rr = r.right.take();
        let rl = r.left.take();
        r.val = self.val.take();
        r.right = rl;
        r.left = self.left.take();
        r.update_height();
        self.val = rval;
        self.right = rr;
        self.left = Some(r);
        self.update_height();
        proof {
            let a = opt_map(l0.right);
            let b = opt_map(l0.left);
            let c = opt_map(old(self).left);
            let k = old(self).key();
            let lk = l0.key();
            assert(opt_map(old(self).right) == l0.as_map());
            assert(l0.as_map().contains_key(lk));
            assert forall|x: i32| #[trigger] b.contains_key(x) implies k < x && x < lk by {
                assert(l0.as_map().contains_key(x));
            }
            assert forall|x: i32| #[trigger] a.contains_key(x) implies x > lk by {}
            let r = *self.left.unwrap();
            assert(r.node_ok());
            assert(r.tree_ok());
            assert(r.as_map() == c.union_prefer_right(b).insert(k, old(self).val.unwrap()@));
            assert(opt_map(self.left) == r.as_map());
            assert forall|x: i32| #[trigger] opt_map(self.left).contains_key(x) implies x < lk by {
                if b.contains_key(x) {
                } else if c.contains_key(x) {
                } else {
                }
            }
            assert(self.node_ok());
            assert(self.as_map() =~= old(self).as_map());
        }
    }

    /// Restores the AVL balance at this node, whose subtrees are balanced and
    /// whose children's heights differ by at most two: a single rotation when
    /// the taller child leans outward or is even, a double one when it leans
    /// inward.
    fn rebalance(&mut self)
        requires
            old(self).val is Some,
            bucket_ok(old(self).val.unwrap()),
            opt_ok(old(self).left),
            opt_ok(old(self).right),
            opt_avl(old(self).left),
            opt_avl(old(self).right),
            forall|k: i32| #[trigger] opt_map(old(self).left).contains_key(k) ==> k < old(self).key(),
            forall|k: i32| #[trigger] opt_map(old(self).right).contains_key(k) ==> k > old(self).key(),
            0 <= opt_height(old(self).left) < i32::MAX,
            0 <= opt_height(old(self).right) < i32::MAX,
            -2 <= opt_height(old(self).left) - opt_height(old(self).right) <= 2,
        ensures
            final(self).tree_ok(),
            final(self).avl(),
            final(self).as_map() == old(self).as_map(),
            ({
                let m = max_int(opt_height(old(self).left), opt_height(old(self).right));
                &&& m <= final(self).height <= m + 1
                &&& -1 <= opt_height(old(self).left) - opt_height(old(self).right) <= 1 ==> final(self).height
                    == m + 1
            }),
    {
        let bf = self.balance_factor();
        if bf > 1 {
            let mut l = self.left.take().unwrap();
            let ghost l0 = *l;
            proof {
                assert(l0.tree_ok() && l0.avl());
                assert(opt_ok(l0.left) && opt_ok(l0.right) && opt_avl(l0.left) && opt_avl(l0.right));
                assert(opt_map(old(self).left) == l0.as_map());
            }
            if l.balance_factor() < 0 {
                proof {
                    let lr = *l0.right.unwrap();
                    assert(lr.tree_ok() && lr.avl());
                    assert(opt_avl(lr.left) && opt_avl(lr.right));
                }
                l.rotate_left();
            }
            self.left = Some(l);
            self.rotate_right();
            proof {
                let rc = *self.right.unwrap();
                assert(opt_avl(self.left));
                assert(rc.avl());
            }
        } else if bf < -1 {
            let mut r = self.right.take().unwrap();
            let ghost r0 = *r;
            proof {
                assert(r0.tree_ok() && r0.avl());
                assert(opt_ok(r0.left) && opt_ok(r0.right) && opt_avl(r0.left) && opt_avl(r0.right));
                assert(opt_map(old(self).right) == r0.as_map());
            }
            if r.balance_factor() > 0 {
                proof {
                    let rl = *r0.left.unwrap();
                    assert(rl.tree_ok() && rl.avl());
                    assert(opt_avl(rl.left) && opt_avl(rl.right));
                }
                r.rotate_right();
            }
            self.right = Some(r);
            self.rotate_left();
            proof {
                let lc = *self.left.unwrap();
                assert(opt_avl(self.right));
                assert(lc.avl());
            }
        } else {
            self.update_height();
        }
    }

    /// A single node whose bucket holds `task` alone.
    fn leaf(task: Task) -> (t: AvlTree)
        ensures
            t.tree_ok(),
            t.avl(),
            t.as_map() == map![task.rank => seq![task]],
            t.height == 1,
    {
        let mut ll = LinkList::new();
        ll.push_back(task);
        let t = AvlTree { val: Some(ll), height: 1, left: None, right: None };
        proof {
            assert(ll@ =~= seq![task]);
            assert(t.as_map() =~= map![task.rank => seq![task]]);
        }
        t
    }

    /// The rank of this node's bucket, read from its first task.
    fn node_rank(&self) -> (r: i32)
        requires
            self.val is Some,
            bucket_ok(self.val.unwrap()),
        ensures
            r == self.key(),
    {
        self.val.as_ref().unwrap().get_head().unwrap().rank
    }

    /// Inserts into a non-empty subtree: appends to the bucket of an equal
    /// rank, or descends and creates a leaf, then rebalances on the way up.
    fn r_insert(&mut self, new_val: Task)
        requires
            old(self).tree_ok(),
            old(self).avl(),
            old(self).height < i32::MAX,
        ensures
            final(self).tree_ok(),
            final(self).avl(),
            final(self).as_map() == inserted(old(self).as_map(), new_val),
            old(self).height <= final(self).height <= old(self).height + 1,
        decreases *old(self),
    {
        let rank = self.node_rank();
        let ghost a = opt_map(self.left);
        let ghost b = opt_map(self.right);
        if new_val.rank == rank {
            let mut ll = self.val.take().unwrap();
            ll.push_back(new_val);
            self.val = Some(ll);
            proof {
                assert(ll@[0] == old(self).val.unwrap()@[0]);
                assert(self.node_ok());
                assert(self.as_map() =~= inserted(old(self).as_map(), new_val));
            }
        } else if new_val.rank < rank {
            match self.left.take() {
                Some(mut l) => {
                    proof {
                        assert(opt_ok(old(self).left) && opt_avl(old(self).left));
                    }
                    l.r_insert(new_val);
                    self.left = Some(l);
                },
                None => {
                    self.left = Some(Box::new(AvlTree::leaf(new_val)));
                },
            }
            proof {
                assert(opt_map(self.left) == inserted(a, new_val));
                assert forall|k: i32| #[trigger] opt_map(self.left).contains_key(k) implies k < self.key() by {
                    if k != new_val.rank {
                        assert(a.contains_key(k));
                    }
                }
            }
            let ghost mid = self.as_map();
            self.rebalance();
            proof {
                assert(!b.contains_key(new_val.rank));
                assert(mid =~= inserted(old(self).as_map(), new_val));
            }
        } else {
            match self.right.take() {
                Some(mut r) => {
                    proof {
                        assert(opt_ok(old(self).right) && opt_avl(old(self).right));
                    }
                    r.r_insert(new_val);
                    self.right = Some(r);
                },
                None => {
                    self.right = Some(Box::new(AvlTree::leaf(new_val)));
                },
            }
            proof {
                assert(opt_map(self.right) == inserted(b, new_val));
                assert forall|k: i32| #[trigger] opt_map(self.right).contains_key(k) implies k > self.key() by {
                    if k != new_val.rank {
                        assert(b.contains_key(k));
                    }
                }
            }
            let ghost mid = self.as_map();
            self.rebalance();
            proof {
                assert(!a.contains_key(new_val.rank));
                assert(mid =~= inserted(old(self).as_map(), new_val));
            }
        }
    }

    /// Inserts `new_task` into the bucket of its rank, creating the node for
    /// that rank if there is none, and keeps the tree an AVL search tree.
    pub fn insert(&mut self, new_task: Task)
        requires
            old(self).wf(),
            old(self).spec_height() < i32::MAX,
        ensures
            final(self).wf(),
            final(self).is_avl_balanced(),
            final(self)@ == inserted(old(self)@, new_task),
            old(self).spec_height() <= final(self).spec_height() <= old(self).spec_height() + 1,
    {
        if self.is_empty() {
            let mut ll = LinkList::new();
            ll.push_back(new_task);
            self.val = Some(ll);
            proof {
                assert(ll@ =~= seq![new_task]);
                assert(opt_map(self.left) == Map::<i32, Seq<Task>>::empty());
                assert(opt_map(self.right) == Map::<i32, Seq<Task>>::empty());
                assert(self.node_ok());
                assert(self.as_map() =~= inserted(old(self)@, new_task));
            }
        } else {
            self.r_insert(new_task);
        }
    }

    /// Descends from a non-empty subtree to the node whose rank is `rank`.
    fn r_search(&self, rank: i32) -> (r: Option<&AvlTree>)
        requires
            self.tree_ok(),
            self.avl(),
        ensures
            r is Some <==> self.as_map().contains_key(rank),
            r matches Some(t) ==> t.wf() && t.val is Some && t.key() == rank && t.node_bucket() == self.as_map()[rank],
        decreases self,
    {
        let k = self.node_rank();
        if rank == k {
            Some(self)
        } else if rank < k {
            match &self.left {
                Some(l) => {
                    proof {
                        assert(opt_ok(self.left) && opt_avl(self.left));
                        assert(!opt_map(self.right).contains_key(rank));
                    }
                    l.r_search(rank)
                },
                None => {
                    proof {
                        assert(!opt_map(self.left).contains_key(rank));
                        assert(!opt_map(self.right).contains_key(rank));
                    }
                    None
                },
            }
        } else {
            match &self.right {
                Some(r) => {
                    proof {
                        assert(opt_ok(self.right) && opt_avl(self.right));
                        assert(!opt_map(self.left).contains_key(rank));
                    }
                    r.r_search(rank)
                },
                None => {
                    proof {
                        assert(!opt_map(self.left).contains_key(rank));
                        assert(!opt_map(self.right).contains_key(rank));
                    }
                    None
                },
            }
        }
    }

    /// The node that owns the rank of `target`, if the tree has that rank.
    pub fn search_by_task(&self, target: &Task) -> (r: Option<&AvlTree>)
        requires
            self.wf(),
        ensures
            r is Some <==> self@.contains_key(target.rank),
            r matches Some(t) ==> t.wf() && t.key() == target.rank && t.node_bucket() == self@[target.rank],
    {
        if self.val.is_none() {
            None
        } else {
            self.r_search(target.get_rank())
        }
    }

    /// The bucket of the tasks of rank `rank`, if the tree has that rank.
    pub fn search_by_rank(&self, rank: i32) -> (r: Option<&LinkList>)
        requires
            self.wf(),
        ensures
            r is Some <==> self@.contains_key(rank),
            r matches Some(ll) ==> ll.wf() && ll@ == self@[rank],
    {
        if self.val.is_none() {
            return None;
        }
        match self.r_search(rank) {
            Some(t) => t.val.as_ref(),
            None => None,
        }
    }

    /// Takes the node of the smallest rank out of a non-empty subtree and
    /// returns what is left, rebalanced, with that node's bucket.
    fn remove_min(node: Box<AvlTree>) -> (r: (Option<Box<AvlTree>>, LinkList))
        requires
            node.tree_ok(),
            node.avl(),
        ensures
            ({
                let (rest, ll) = r;
                let m = node.as_map();
                let k = ll@[0].rank;
                &&& bucket_ok(ll)
                &&& m.contains_key(k)
                &&& m[k] == ll@
                &&& forall|x: i32| #[trigger] m.contains_key(x) ==> k <= x
                &&& opt_map(rest) == m.remove(k)
                &&& opt_ok(rest)
                &&& opt_avl(rest)
                &&& node.height - 1 <= opt_height(rest) <= node.height
            }),
        decreases node,
    {
        let ghost n0 = *node;
        let mut node = node;
        proof {
            assert(opt_ok(n0.left) && opt_ok(n0.right) && opt_avl(n0.left) && opt_avl(n0.right));
        }
        match node.left.take() {
            None => {
                let ll = node.val.take().unwrap();
                let rest = node.right.take();
                proof {
                    assert(opt_map(n0.left) == Map::<i32, Seq<Task>>::empty());
                    assert(opt_map(rest) =~= n0.as_map().remove(n0.key()));
                }
                (rest, ll)
            },
            Some(l) => {
                let (rest, ll) = Self::remove_min(l);
                let ghost k = ll@[0].rank;
                node.left = rest;
                proof {
                    assert(opt_map(n0.left).contains_key(k));
                    assert forall|x: i32| #[trigger] opt_map(node.left).contains_key(x) implies x < node.key() by {
                        assert(opt_map(n0.left).contains_key(x));
                    }
                }
                let ghost mid = node.as_map();
                node.rebalance();
                proof {
                    assert(!opt_map(n0.right).contains_key(k));
                    assert(mid =~= n0.as_map().remove(k));
                    assert forall|x: i32| #[trigger] n0.as_map().contains_key(x) implies k <= x by {
                        if opt_map(n0.left).contains_key(x) {
                        } else if opt_map(n0.right).contains_key(x) {
                        } else {
                        }
                    }
                }
                (Some(node), ll)
            },
        }
    }

    /// Joins the two subtrees of a node being taken out (every rank of `left`
    /// below every rank of `right`), promoting the smallest node of `right`.
    fn splice(left: Option<Box<AvlTree>>, right: Option<Box<AvlTree>>, Ghost(k): Ghost<i32>) -> (r: Option<
        Box<AvlTree>,
    >)
        requires
            opt_ok(left),
            opt_ok(right),
            opt_avl(left),
            opt_avl(right),
            0 <= opt_height(left) < i32::MAX,
            0 <= opt_height(right) < i32::MAX,
            -1 <= opt_height(left) - opt_height(right) <= 1,
            forall|x: i32| #[trigger] opt_map(left).contains_key(x) ==> x < k,
            forall|x: i32| #[trigger] opt_map(right).contains_key(x) ==> x > k,
        ensures
            opt_ok(r),
            opt_avl(r),
            opt_map(r) == opt_map(left).union_prefer_right(opt_map(right)),
            ({
                let m = max_int(opt_height(left), opt_height(right));
                m <= opt_height(r) <= m + 1
            }),
    {
        match right {
            None => {
                proof {
                    assert(opt_map(left).union_prefer_right(opt_map(right)) =~= opt_map(left));
                }
                left
            },
            Some(rb) => {
                if left.is_none() {
                    proof {
                        assert(opt_map(left).union_prefer_right(opt_map(Some(rb))) =~= opt_map(Some(rb)));
                    }
                    return Some(rb);
                }
                let ghost r0 = *rb;
                proof {
                    assert(r0.tree_ok() && r0.avl());
                }
                let (rest, ll) = Self::remove_min(rb);
                let ghost mk = ll@[0].rank;
                let mut node = Box::new(AvlTree { val: Some(ll), height: 1, left, right: rest });
                proof {
                    assert(node.key() == mk);
                    assert(opt_map(right) == r0.as_map());
                    assert(r0.as_map().contains_key(mk));
                    assert(mk > k);
                    assert forall|x: i32| #[trigger] opt_map(node.left).contains_key(x) implies x < node.key() by {
                        assert(opt_map(left).contains_key(x));
                    }
                    assert forall|x: i32| #[trigger] opt_map(node.right).contains_key(x) implies x > node.key() by {
                        assert(r0.as_map().contains_key(x));
                    }
                }
                let ghost mid = node.as_map();
                node.rebalance();
                proof {
                    assert(mid =~= opt_map(left).union_prefer_right(r0.as_map()));
                }
                Some(node)
            },
        }
    }

    /// Removes `target` from the bucket of its rank in a non-empty subtree,
    /// takes the node out when its bucket empties, and rebalances on the way
    /// up. Returns the subtree left and the task removed.
    fn r_delete(node: Box<AvlTree>, target: &Task) -> (r: (Option<Box<AvlTree>>, Option<Task>))
        requires
            node.tree_ok(),
            node.avl(),
        ensures
            ({
                let (t, removed) = r;
                let m = node.as_map();
                let k = target.rank;
                &&& opt_ok(t)
                &&& opt_avl(t)
                &&& node.height - 1 <= opt_height(t) <= node.height
                &&& !(m.contains_key(k) && has_id(m[k], target.id)) ==> removed is None && opt_map(t) == m
                &&& (m.contains_key(k) && has_id(m[k], target.id)) ==> exists|i: int|
                    is_first_with_id(m[k], target.id, i) && removed == Some(m[k][i]) && opt_map(t)
                        == after_delete(m, k, i)
            }),
        decreases node,
    {
        let ghost n0 = *node;
        let ghost m = n0.as_map();
        let ghost a = opt_map(n0.left);
        let ghost b = opt_map(n0.right);
        let ghost k = target.rank;
        let mut node = node;
        proof {
            assert(opt_ok(n0.left) && opt_ok(n0.right) && opt_avl(n0.left) && opt_avl(n0.right));
        }
        let rank = node.node_rank();
        if target.rank == rank {
            let mut ll = node.val.take().unwrap();
            let removed = ll.delete_task(target);
            proof {
                assert(m[k] == n0.val.unwrap()@);
            }
            if ll.is_empty() {
                let l = node.left.take();
                let r = node.right.take();
                let t = Self::splice(l, r, Ghost(rank));
                proof {
                    if has_id(m[k], target.id) {
                        let i = choose|i: int|
                            is_first_with_id(m[k], target.id, i) && removed == Some(m[k][i]) && ll@ == m[k].remove(i);
                        assert(!a.contains_key(k) && !b.contains_key(k));
                        assert(opt_map(t) =~= after_delete(m, k, i));
                    }
                }
                (t, removed)
            } else {
                node.val = Some(ll);
                proof {
                    if has_id(m[k], target.id) {
                        let i = choose|i: int|
                            is_first_with_id(m[k], target.id, i) && removed == Some(m[k][i]) && ll@ == m[k].remove(i);
                        let s = m[k];
                        assert forall|j: int| 0 <= j < ll@.len() implies (#[trigger] ll@[j]).rank == ll@[0].rank by {
                            assert(ll@[j] == s[if j < i { j } else { j + 1 }]);
                            assert(ll@[0] == s[if 0 < i { 0 } else { 1 }]);
                        }
                        assert(node.node_ok());
                        assert(node.as_map() =~= after_delete(m, k, i));
                    } else {
                        assert(node.as_map() =~= m);
                    }
                }
                (Some(node), removed)
            }
        } else if target.rank < rank {
            match node.left.take() {
                None => {
                    proof {
                        assert(a == Map::<i32, Seq<Task>>::empty());
                        assert(!m.contains_key(k));
                    }
                    (Some(node), None)
                },
                Some(l) => {
                    let (nl, removed) = Self::r_delete(l, target);
                    node.left = nl;
                    let ghost a2 = opt_map(node.left);
                    proof {
                        assert(!b.contains_key(k));
                        assert(m.contains_key(k) == a.contains_key(k));
                        if a.contains_key(k) {
                            assert(m[k] == a[k]);
                        }
                        assert forall|x: i32| #[trigger] a2.contains_key(x) implies x < node.key() by {
                            assert(a.contains_key(x));
                        }
                    }
                    let ghost mid = node.as_map();
                    node.rebalance();
                    proof {
                        if a.contains_key(k) && has_id(a[k], target.id) {
                            let i = choose|i: int|
                                is_first_with_id(a[k], target.id, i) && removed == Some(a[k][i]) && a2
                                    == after_delete(a, k, i);
                            assert(mid =~= after_delete(m, k, i));
                        } else {
                            assert(mid =~= m);
                        }
                    }
                    (Some(node), removed)
                },
            }
        } else {
            match node.right.take() {
                None => {
                    proof {
                        assert(b == Map::<i32, Seq<Task>>::empty());
                        assert(!m.contains_key(k));
                    }
                    (Some(node), None)
                },
                Some(r) => {
                    let (nr, removed) = Self::r_delete(r, target);
                    node.right = nr;
                    let ghost b2 = opt_map(node.right);
                    proof {
                        assert(!a.contains_key(k));
                        assert(m.contains_key(k) == b.contains_key(k));
                        if b.contains_key(k) {
                            assert(m[k] == b[k]);
                        }
                        assert forall|x: i32| #[trigger] b2.contains_key(x) implies x > node.key() by {
                            assert(b.contains_key(x));
                        }
                    }
                    let ghost mid = node.as_map();
                    node.rebalance();
                    proof {
                        if b.contains_key(k) && has_id(b[k], target.id) {
                            let i = choose|i: int|
                                is_first_with_id(b[k], target.id, i) && removed == Some(b[k][i]) && b2
                                    == after_delete(b, k, i);
                            assert(mid =~= after_delete(m, k, i));
                        } else {
                            assert(mid =~= m);
                        }
                    }
                    (Some(node), removed)
                },
            }
        }
    }

    /// Removes the first task of `target`'s identity from the bucket of
    /// `target`'s rank and returns it. A bucket left empty takes its node out
    /// of the tree, which is rebalanced. `None`, with the tree unchanged, when
    /// no such task is stored.
    pub fn delete_by_task(&mut self, target: &Task) -> (r: Option<Task>)
        requires
            old(self).wf(),
        ensures
            final(self).wf(),
            final(self).is_avl_balanced(),
            final(self).spec_height() <= old(self).spec_height(),
            ({
                let m = old(self)@;
                let k = target.rank;
                &&& !(m.contains_key(k) && has_id(m[k], target.id)) ==> r is None && final(self)@ == m
                &&& (m.contains_key(k) && has_id(m[k], target.id)) ==> exists|i: int|
                    is_first_with_id(m[k], target.id, i) && r == Some(m[k][i]) && final(self)@
                        == after_delete(m, k, i)
            }),
    {
        if self.val.is_none() {
            return None;
        }
        let node = Box::new(
            AvlTree { val: self.val.take(), height: self.height, left: self.left.take(), right: self.right.take() },
        );
        let (rest, removed) = Self::r_delete(node, target);
        match rest {
            None => {
                self.height = 1;
                proof {
                    assert(self.as_map() =~= opt_map(rest));
                }
            },
            Some(b) => {
                *self = *b;
            },
        }
        removed
    }

    /// What the left subtree holds (empty when there is none).
    pub closed spec fn left_view(self) -> Map<i32, Seq<Task>> {
        opt_map(self.left)
    }

    /// What the right subtree holds (empty when there is none).
    pub closed spec fn right_view(self) -> Map<i32, Seq<Task>> {
        opt_map(self.right)
    }

    /// The left subtree: the part of the tree below this node's rank.
    pub fn left(&self) -> (r: Option<&AvlTree>)
        requires
            self.wf(),
        ensures
            r is None <==> self.left_view() == Map::<i32, Seq<Task>>::empty(),
            r matches Some(t) ==> t.wf() && t@ == self.left_view(),
            self.left_view().submap_of(self@),
            forall|k: i32| #[trigger] self.left_view().contains_key(k) <==> self@.contains_key(k) && k < self.key(),
    {
        proof {
            if self.val is Some {
                assert(opt_ok(self.left) && opt_avl(self.left));
                assert forall|k: i32| #[trigger] self.left_view().contains_key(k) implies self@.contains_key(k)
                    && self@[k] == self.left_view()[k] by {
                    assert(!opt_map(self.right).contains_key(k));
                }
                assert forall|k: i32| self@.contains_key(k) && k < self.key() implies #[trigger] self.left_view().contains_key(k) by {
                    if opt_map(self.right).contains_key(k) {
                    }
                }
            } else {
                assert(self.left_view() == Map::<i32, Seq<Task>>::empty());
            }
        }
        match &self.left {
            Some(l) => {
                proof {
                    assert(l.as_map().contains_key(l.key()));
                }
                Some(&**l)
            },
            None => None,
        }
    }

    /// The right subtree: the part of the tree above this node's rank.
    pub fn right(&self) -> (r: Option<&AvlTree>)
        requires
            self.wf(),
        ensures
            r is None <==> self.right_view() == Map::<i32, Seq<Task>>::empty(),
            r matches Some(t) ==> t.wf() && t@ == self.right_view(),
            self.right_view().submap_of(self@),
            forall|k: i32| #[trigger] self.right_view().contains_key(k) <==> self@.contains_key(k) && k > self.key(),
    {
        proof {
            if self.val is Some {
                assert(opt_ok(self.right) && opt_avl(self.right));
                assert forall|k: i32| self@.contains_key(k) && k > self.key() implies #[trigger] self.right_view().contains_key(k) by {
                    if opt_map(self.left).contains_key(k) {
                    }
                }
            } else {
                assert(self.right_view() == Map::<i32, Seq<Task>>::empty());
            }
        }
        match &self.right {
            Some(r) => {
                proof {
                    assert(r.as_map().contains_key(r.key()));
                }
                Some(&**r)
            },
            None => None,
        }
    }

    /// Appends the in-order ranks of an optional subtree to `out`.
    fn collect_ranks(t: &Option<Box<AvlTree>>, out: &mut Vec<i32>)
        requires
            opt_ok(*t),
        ensures
            final(out)@ == old(out)@ + opt_ranks(*t),
        decreases *t,
    {
        match t {
            None => {
                assert(old(out)@ + opt_ranks(*t) =~= old(out)@);
            },
            Some(b) => {
                proof {
                    assert(b.tree_ok());
                    assert(opt_ok(b.left) && opt_ok(b.right));
                }
                Self::collect_ranks(&b.left, out);
                out.push(b.node_rank());
                Self::collect_ranks(&b.right, out);
                assert(out@ =~= old(out)@ + opt_ranks(*t));
            },
        }
    }

    /// The ranks of the tree's nodes, read in order.
    pub fn ranks(&self) -> (r: Vec<i32>)
        requires
            self.wf(),
        ensures
            r@ == self.in_order(),
    {
        let mut out: Vec<i32> = Vec::new();
        if self.val.is_some() {
            Self::collect_ranks(&self.left, &mut out);
            out.push(self.node_rank());
            Self::collect_ranks(&self.right, &mut out);
            assert(out@ =~= self.in_order());
        } else {
            assert(out@ =~= self.in_order());
        }
        out
    }
}

/// The in-order ranks of an optional subtree increase strictly and are all
/// held by it.
proof fn lemma_opt_in_order(t: Option<Box<AvlTree>>)
    requires
        opt_ok(t),
    ensures
        forall|i: int, j: int| 0 <= i < j < opt_ranks(t).len() ==> opt_ranks(t)[i] < opt_ranks(t)[j],
        forall|i: int| 0 <= i < opt_ranks(t).len() ==> opt_map(t).contains_key(#[trigger] opt_ranks(t)[i]),
    decreases t,
{
    match t {
        None => {},
        Some(b) => {
            assert(b.tree_ok());
            lemma_node_in_order(*b);
            assert(opt_ranks(t) == b.in_order());
            assert(opt_map(t) == b.as_map());
        },
    }
}

/// The in-order ranks of a subtree increase strictly and are all held by it.
proof fn lemma_node_in_order(t: AvlTree)
    requires
        t.tree_ok(),
    ensures
        forall|i: int, j: int| 0 <= i < j < t.in_order().len() ==> t.in_order()[i] < t.in_order()[j],
        forall|i: int| 0 <= i < t.in_order().len() ==> t.as_map().contains_key(#[trigger] t.in_order()[i]),
    decreases t,
{
    lemma_opt_in_order(t.left);
    lemma_opt_in_order(t.right);
    let l = opt_ranks(t.left);
    let r = opt_ranks(t.right);
    let k = t.key();
    let s = t.in_order();
    assert(s == l + seq![k] + r);
    assert forall|i: int| 0 <= i < s.len() implies t.as_map().contains_key(#[trigger] s[i]) by {
        if i < l.len() {
            assert(s[i] == l[i]);
        } else if i > l.len() {
            assert(s[i] == r[i - l.len() - 1]);
        }
    }
    assert forall|i: int, j: int| 0 <= i < j < s.len() implies s[i] < s[j] by {
        if i < l.len() {
            assert(s[i] == l[i]);
            assert(opt_map(t.left).contains_key(l[i]));
        } else if i > l.len() {
            assert(s[i] == r[i - l.len() - 1]);
        }
        if j < l.len() {
            assert(s[j] == l[j]);
        } else if j > l.len() {
            assert(s[j] == r[j - l.len() - 1]);
            assert(opt_map(t.right).contains_key(r[j - l.len() - 1]));
        }
    }
}

/// Search-tree order: in every well-formed tree, reading the node ranks in
/// order (left subtree, node, right subtree) gives a strictly increasing
/// sequence of ranks, each of which the tree holds.
pub proof fn lemma_in_order_strictly_increasing(t: &AvlTree)
    requires
        t.wf(),
    ensures
        forall|i: int, j: int| 0 <= i < j < t.in_order().len() ==> t.in_order()[i] < t.in_order()[j],
        forall|i: int| 0 <= i < t.in_order().len() ==> t@.contains_key(#[trigger] t.in_order()[i]),
{
    if t.val is Some {
        lemma_node_in_order(*t);
    }
}

} // verus!
