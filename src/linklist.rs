use vstd::prelude::*;
use crate::task::Task;

verus! {

/// One slot of a bucket's arena: the task it owns and the handles (arena
/// indices) of its neighbours. Links are plain indices, so no node keeps
/// another alive and no ownership cycle can form.
#[derive(Debug, Clone, Copy)]
pub struct Node {
    task: Task,
    next: Option<usize>,
    prev: Option<usize>,
}

impl Node {
    /// An unlinked node owning `task`.
    fn new(task: Task) -> (n: Node)
        ensures
            n.task == task,
            n.next is None,
            n.prev is None,
    {
        Node { task, next: None, prev: None }
    }

    /// The task held by this node.
    pub closed spec fn task_spec(&self) -> Task {
        self.task
    }

    /// The task held by this node.
    pub fn get_task(&self) -> (t: Task)
        ensures
            t == self.task_spec(),
    {
        self.task
    }
}

/// A FIFO bucket of tasks kept as a doubly linked list over an arena of
/// nodes. The arena is kept dense: removing a node moves the last slot into
/// the hole and patches its neighbours.
pub struct LinkList {
    nodes: Vec<Node>,
    head: Option<usize>,
    tail: Option<usize>,
    size: usize,
    /// the arena slots in list order
    order: Ghost<Seq<usize>>,
    /// for each slot, its position in `order`
    pos: Ghost<Seq<int>>,
}

/// The slots reached by following `next` links from `cur`, at most `fuel` of them.
pub closed spec fn walk(nodes: Seq<Node>, cur: Option<usize>, fuel: nat) -> Seq<usize>
    decreases fuel,
{
    if fuel == 0 {
        Seq::empty()
    } else {
        match cur {
            None => Seq::empty(),
            Some(k) => if k < nodes.len() {
                seq![k] + walk(nodes, nodes[k as int].next, (fuel - 1) as nat)
            } else {
                Seq::empty()
            },
        }
    }
}

/// `i` is the index of the first task in `s` whose identity is `id`.
pub open spec fn is_first_with_id(s: Seq<Task>, id: i32, i: int) -> bool {
    &&& 0 <= i < s.len()
    &&& s[i].id == id
    &&& forall|j: int| 0 <= j < i ==> s[j].id != id
}

/// Some task in `s` has identity `id`.
pub open spec fn has_id(s: Seq<Task>, id: i32) -> bool {
    exists|i: int| 0 <= i < s.len() && s[i].id == id
}

/// `order` lists each of the slots `0..n` exactly once and `pos` is its inverse.
#[verifier::opaque]
spec fn is_perm(order: Seq<usize>, pos: Seq<int>, n: nat) -> bool {
    &&& order.len() == n
    &&& pos.len() == n
    &&& forall|i: int| 0 <= i < n ==> (#[trigger] order[i]) < n && pos[order[i] as int] == i
    &&& forall|k: int| 0 <= k < n ==> 0 <= (#[trigger] pos[k]) < n && order[pos[k]] == k
}

/// The links of the nodes, and the head and tail, follow `order`.
#[verifier::opaque]
spec fn links_agree(nodes: Seq<Node>, order: Seq<usize>, head: Option<usize>, tail: Option<usize>) -> bool {
    let n = order.len();
    &&& forall|i: int|
        0 <= i < n ==> (#[trigger] nodes[order[i] as int]).prev == (if i == 0 {
            None
        } else {
            Some(order[i - 1])
        })
    &&& forall|i: int|
        0 <= i < n ==> (#[trigger] nodes[order[i] as int]).next == (if i == n - 1 {
            None
        } else {
            Some(order[i + 1])
        })
    &&& head == (if n == 0 { None } else { Some(order[0]) })
    &&& tail == (if n == 0 { None } else { Some(order[n - 1]) })
}

/// A link after slot `from` has been renamed `to`.
spec fn relabel(o: Option<usize>, from: usize, to: usize) -> Option<usize> {
    match o {
        Some(x) => if x == from { Some(to) } else { Some(x) },
        None => None,
    }
}

/// A slot after slot `last` has been renamed `k`.
spec fn moved(x: usize, last: usize, k: usize) -> usize {
    if x == last { k } else { x }
}

/// The inverse of `order` once position `p` (slot `k`) is removed and slot
/// `last` is renamed `k`.
spec fn shifted_pos(pos: Seq<int>, p: int, k: usize, last: usize) -> Seq<int> {
    Seq::new(
        last as nat,
        |j: int|
            {
                let s = if j == k { last as int } else { j };
                if pos[s] > p {
                    pos[s] - 1
                } else {
                    pos[s]
                }
            },
    )
}

/// Removing position `p` from `order`, and renaming the last slot `last` to
/// the freed slot `k`, gives a permutation of the slots that remain.
proof fn lemma_relabel_perm(order: Seq<usize>, pos: Seq<int>, p: int, k: usize, last: usize)
    requires
        is_perm(order, pos, (last + 1) as nat),
        0 <= p <= last,
        order[p] == k,
    ensures
        is_perm(order.remove(p).map_values(|x: usize| moved(x, last, k)), shifted_pos(pos, p, k, last), last as nat),
{
    reveal(is_perm);
    let m = last as int;
    let order1 = order.remove(p);
    let order2 = order1.map_values(|x: usize| moved(x, last, k));
    let pos2 = shifted_pos(pos, p, k, last);
    assert forall|i: int| 0 <= i < m implies (#[trigger] order2[i]) < m && pos2[order2[i] as int] == i by {
        let q = if i < p { i } else { i + 1 };
        assert(order1[i] == order[q]);
        assert(pos[order[q] as int] == q);
        if order[q] == last {
            assert(order2[i] == k);
        }
    }
    assert forall|j: int| 0 <= j < m implies 0 <= (#[trigger] pos2[j]) < m && order2[pos2[j]] == j by {
        let s = if j == k { last as int } else { j };
        assert(order[pos[s]] == s);
        assert(pos[s] != p);
        let q = if pos[s] > p { pos[s] - 1 } else { pos[s] };
        assert(order1[q] == order[pos[s]]);
    }
}

/// One position's links, as `links_agree` gives them.
proof fn lemma_link_at(nodes: Seq<Node>, order: Seq<usize>, head: Option<usize>, tail: Option<usize>, i: int)
    requires
        links_agree(nodes, order, head, tail),
        0 <= i < order.len(),
    ensures
        nodes[order[i] as int].prev == (if i == 0 { None } else { Some(order[i - 1]) }),
        nodes[order[i] as int].next == (if i == order.len() - 1 { None } else { Some(order[i + 1]) }),
{
    reveal(links_agree);
}

/// The head and tail, as `links_agree` gives them.
proof fn lemma_link_ends(nodes: Seq<Node>, order: Seq<usize>, head: Option<usize>, tail: Option<usize>)
    requires
        links_agree(nodes, order, head, tail),
    ensures
        head == (if order.len() == 0 { None } else { Some(order[0]) }),
        tail == (if order.len() == 0 { None } else { Some(order[order.len() - 1]) }),
{
    reveal(links_agree);
}

/// Facts about a list from which the node in slot `k`, at position `p`, has
/// just been unlinked.
proof fn lemma_unlinked(
    nodes1: Seq<Node>,
    order: Seq<usize>,
    pos: Seq<int>,
    p: int,
    k: usize,
    head: Option<usize>,
    tail: Option<usize>,
)
    requires
        order.len() == nodes1.len(),
        is_perm(order, pos, nodes1.len()),
        0 <= p < nodes1.len(),
        order[p] == k,
        links_agree(nodes1, order.remove(p), head, tail),
    ensures
        k < nodes1.len(),
        ({
            let order1 = order.remove(p);
            let last = (nodes1.len() - 1) as usize;
            let mv = nodes1[last as int];
            &&& forall|i: int| 0 <= i < last ==> (#[trigger] order1[i]) < nodes1.len() && order1[i] != k
            &&& k != last ==> {
                &&& mv.prev matches Some(a) ==> a < last && a != k && nodes1[a as int].next == Some(last)
                &&& mv.next matches Some(b) ==> b < last && b != k && nodes1[b as int].prev == Some(last)
                &&& (mv.prev is Some && mv.next is Some ==> mv.prev.unwrap() != mv.next.unwrap())
                &&& (mv.prev is None <==> head == Some(last))
                &&& (mv.next is None <==> tail == Some(last))
                &&& forall|i: int|
                    0 <= i < last ==> (nodes1[(#[trigger] order1[i]) as int].next == Some(last)
                        ==> mv.prev == Some(order1[i])) && (nodes1[order1[i] as int].prev == Some(last)
                        ==> mv.next == Some(order1[i]))
            }
            &&& k == last ==> forall|i: int| 0 <= i < last ==> (#[trigger] order1[i]) < last
        }),
{
    lemma_link_ends(nodes1, order.remove(p), head, tail);
    let n = nodes1.len() as int;
    let last = n - 1;
    let order1 = order.remove(p);
    lemma_removed_entries(order, pos, p, k);
    if k != last {
        let j1: int = if pos[last] > p { pos[last] - 1 } else { pos[last] };
        assert(order1[j1] == last as usize);
        let mv = nodes1[last];
        assert(mv == nodes1[order1[j1] as int]);
        lemma_link_at(nodes1, order1, head, tail, j1);
        if j1 > 0 {
            lemma_link_at(nodes1, order1, head, tail, j1 - 1);
        }
        if j1 < last - 1 {
            lemma_link_at(nodes1, order1, head, tail, j1 + 1);
        }
        assert(mv.prev == (if j1 == 0 { None } else { Some(order1[j1 - 1]) }));
        assert(mv.next == (if j1 == last - 1 { None } else { Some(order1[j1 + 1]) }));
        if j1 > 0 {
            assert(pos[order1[j1 - 1] as int] != pos[order1[j1] as int]);
            assert(nodes1[order1[j1 - 1] as int].next == Some(order1[j1]));
        }
        if j1 < last - 1 {
            assert(pos[order1[j1 + 1] as int] != pos[order1[j1] as int]);
            assert(nodes1[order1[j1 + 1] as int].prev == Some(order1[j1]));
        }
        if j1 > 0 && j1 < last - 1 {
            assert(pos[order1[j1 + 1] as int] == (if j1 + 1 < p { j1 + 1 } else { j1 + 2 }));
            assert(pos[order1[j1 - 1] as int] == (if j1 - 1 < p { j1 - 1 } else { j1 }));
            assert(order1[j1 + 1] != order1[j1 - 1]);
        }
        assert forall|i: int|
            0 <= i < last implies (nodes1[(#[trigger] order1[i]) as int].next == Some(last as usize)
                ==> mv.prev == Some(order1[i])) && (nodes1[order1[i] as int].prev == Some(last as usize)
                ==> mv.next == Some(order1[i])) by {
            lemma_link_at(nodes1, order1, head, tail, i);
            if nodes1[order1[i] as int].next == Some(last as usize) {
                assert(order1[i + 1] == order1[j1]);
                assert(pos[order1[i + 1] as int] == pos[order1[j1] as int]);
            }
            if nodes1[order1[i] as int].prev == Some(last as usize) {
                assert(order1[i - 1] == order1[j1]);
                assert(pos[order1[i - 1] as int] == pos[order1[j1] as int]);
            }
        }
        if head == Some(last as usize) {
            assert(pos[order1[0] as int] == pos[order1[j1] as int]);
        }
        if tail == Some(last as usize) {
            assert(pos[order1[last - 1] as int] == pos[order1[j1] as int]);
        }
    } else {
        assert forall|i: int| 0 <= i < last implies (#[trigger] order1[i]) < last by {
            assert(order1[i] != k);
        }
    }
}

/// The entries left after removing position `p` of a permutation, with the
/// positions they had.
proof fn lemma_removed_entries(order: Seq<usize>, pos: Seq<int>, p: int, k: usize)
    requires
        is_perm(order, pos, order.len()),
        0 <= p < order.len(),
        order[p] == k,
    ensures
        k < order.len(),
        forall|i: int|
            0 <= i < order.len() - 1 ==> (#[trigger] order.remove(p)[i]) < order.len() && order.remove(p)[i] != k
                && pos[order.remove(p)[i] as int] == (if i < p { i } else { i + 1 }),
        k + 1 != order.len() ==> {
            let last = order.len() - 1;
            let j1 = if pos[last] > p { pos[last] - 1 } else { pos[last] };
            0 <= j1 < last && order.remove(p)[j1] == last
        },
{
    reveal(is_perm);
    let n = order.len() as int;
    let order1 = order.remove(p);
    assert forall|i: int| 0 <= i < n - 1 implies (#[trigger] order1[i]) < n && order1[i] != k && pos[order1[i] as int] == (if i < p { i } else { i + 1 }) by {
        if i < p {
            assert(order1[i] == order[i]);
        } else {
            assert(order1[i] == order[i + 1]);
        }
    }
    if k + 1 != n {
        assert(pos[n - 1] != p);
    }
}

/// How each listed slot reads once the last slot has moved into slot `k`.
proof fn lemma_moved_slots(nodes1: Seq<Node>, nodes3: Seq<Node>, order1: Seq<usize>, k: usize, last: usize)
    requires
        order1.len() == last,
        nodes1.len() == last + 1,
        k <= last,
        nodes3.len() == last,
        forall|i: int| 0 <= i < last ==> (#[trigger] order1[i]) < nodes1.len() && order1[i] != k,
        k == last ==> nodes3 == nodes1.subrange(0, last as int),
        k != last ==> {
            let mv = nodes1[last as int];
            &&& mv.prev matches Some(a) ==> a < last && a != k && nodes1[a as int].next == Some(last)
            &&& mv.next matches Some(b) ==> b < last && b != k && nodes1[b as int].prev == Some(last)
            &&& (mv.prev is Some && mv.next is Some ==> mv.prev.unwrap() != mv.next.unwrap())
            &&& forall|i: int|
                0 <= i < last ==> (nodes1[(#[trigger] order1[i]) as int].next == Some(last)
                    ==> mv.prev == Some(order1[i])) && (nodes1[order1[i] as int].prev == Some(last)
                    ==> mv.next == Some(order1[i]))
            &&& forall|s: int|
                0 <= s < last ==> (#[trigger] nodes3[s]) == (if s == k {
                    mv
                } else if mv.prev == Some(s as usize) {
                    Node { next: Some(k), ..nodes1[s] }
                } else if mv.next == Some(s as usize) {
                    Node { prev: Some(k), ..nodes1[s] }
                } else {
                    nodes1[s]
                })
        },
    ensures
        forall|i: int| 0 <= i < last ==> {
            let s = #[trigger] order1[i];
            &&& moved(s, last, k) < last
            &&& nodes3[moved(s, last, k) as int].task == nodes1[s as int].task
            &&& nodes3[moved(s, last, k) as int].prev == relabel(nodes1[s as int].prev, last, k)
            &&& nodes3[moved(s, last, k) as int].next == relabel(nodes1[s as int].next, last, k)
        },
{
    assert forall|i: int| 0 <= i < last implies {
        let s = #[trigger] order1[i];
        &&& moved(s, last, k) < last
        &&& nodes3[moved(s, last, k) as int].task == nodes1[s as int].task
        &&& nodes3[moved(s, last, k) as int].prev == relabel(nodes1[s as int].prev, last, k)
        &&& nodes3[moved(s, last, k) as int].next == relabel(nodes1[s as int].next, last, k)
    } by {
        let s = order1[i];
        if k == last {
            assert(s < last);
            assert(nodes3[s as int] == nodes1[s as int]);
        } else {
            let mv = nodes1[last as int];
            if s == last {
                assert(nodes3[k as int] == mv);
            } else {
                assert(s < last);
            }
        }
    }
}

/// Renaming slot `last` to `k` in every link, with each node moved as its
/// slot is renamed, keeps the links in agreement with the renamed order.
proof fn lemma_relabel_links(
    nodes1: Seq<Node>,
    nodes3: Seq<Node>,
    order1: Seq<usize>,
    k: usize,
    last: usize,
    head: Option<usize>,
    tail: Option<usize>,
)
    requires
        order1.len() == last,
        forall|i: int| 0 <= i < last ==> {
            let s = #[trigger] order1[i];
            &&& nodes3[moved(s, last, k) as int].prev == relabel(nodes1[s as int].prev, last, k)
            &&& nodes3[moved(s, last, k) as int].next == relabel(nodes1[s as int].next, last, k)
        },
        links_agree(nodes1, order1, head, tail),
    ensures
        links_agree(
            nodes3,
            order1.map_values(|x: usize| moved(x, last, k)),
            relabel(head, last, k),
            relabel(tail, last, k),
        ),
{
    reveal(links_agree);
    let m = last as int;
    let order2 = order1.map_values(|x: usize| moved(x, last, k));
    assert forall|i: int|
        0 <= i < m implies (#[trigger] nodes3[order2[i] as int]).prev == (if i == 0 {
            None
        } else {
            Some(order2[i - 1])
        }) by {
        let s = order1[i];
        assert(nodes1[s as int].prev == (if i == 0 { None } else { Some(order1[i - 1]) }));
    }
    assert forall|i: int|
        0 <= i < m implies (#[trigger] nodes3[order2[i] as int]).next == (if i == m - 1 {
            None
        } else {
            Some(order2[i + 1])
        }) by {
        let s = order1[i];
        assert(nodes1[s as int].next == (if i == m - 1 { None } else { Some(order1[i + 1]) }));
    }
}

impl View for LinkList {
    type V = Seq<Task>;

    /// The tasks in list order, from head to tail.
    closed spec fn view(&self) -> Seq<Task> {
        self.order@.map_values(|k: usize| self.nodes@[k as int].task)
    }
}

impl LinkList {
    /// The list is well formed: `order` enumerates every arena slot exactly
    /// once, the links agree with `order`, head and tail are its ends, and
    /// `size` counts it.
    pub closed spec fn wf(&self) -> bool {
        let n = self.nodes@.len();
        &&& self.size == n
        &&& self.order@.len() == n
        &&& self.pos@.len() == n
        &&& is_perm(self.order@, self.pos@, n)
        &&& links_agree(self.nodes@, self.order@, self.head, self.tail)
    }

    /// The `size` counter.
    pub closed spec fn size_spec(&self) -> nat {
        self.size as nat
    }

    /// The slots met by a full forward traversal from the head.
    pub closed spec fn forward_walk(&self) -> Seq<usize> {
        walk(self.nodes@, self.head, self.nodes@.len())
    }

    /// The tasks met by a full forward traversal from the head.
    pub closed spec fn forward_tasks(&self) -> Seq<Task> {
        self.forward_walk().map_values(|k: usize| self.nodes@[k as int].task)
    }

    /// An empty bucket.
    pub fn new() -> (l: Self)
        ensures
            l.wf(),
            l@ == Seq::<Task>::empty(),
    {
        proof {
            reveal(is_perm);
            reveal(links_agree);
        }
        let l = LinkList {
            nodes: Vec::new(),
            head: None,
            tail: None,
            size: 0,
            order: Ghost(Seq::empty()),
            pos: Ghost(Seq::empty()),
        };
        assert(l@ =~= Seq::<Task>::empty());
        l
    }

    /// Appends `task` after the current tail.
    pub fn push_back(&mut self, task: Task)
        requires
            old(self).wf(),
        ensures
            final(self).wf(),
            final(self)@ == old(self)@.push(task),
    {
        proof {
            reveal(is_perm);
            reveal(links_agree);
        }
        let ghost n = self.nodes@.len();
        let k = self.nodes.len();
        let mut node = Node::new(task);
        node.prev = self.tail;
        match self.tail {
            Some(t) => {
                let mut tn = self.nodes[t];
                tn.next = Some(k);
                self.nodes.set(t, tn);
            },
            None => {
                self.head = Some(k);
            },
        }
        self.nodes.push(node);
        self.tail = Some(k);
        self.size = self.nodes.len();
        self.order = Ghost(self.order@.push(k));
        self.pos = Ghost(self.pos@.push(n as int));
        proof {
            let order = self.order@;
            assert forall|i: int| 0 <= i < n + 1 implies (#[trigger] self.nodes@[order[i] as int]).prev
                == (if i == 0 { None } else { Some(order[i - 1]) }) by {
                if i < n {
                    if n > 0 {
                        assert(order[i] != order[n - 1] || i == n - 1);
                    }
                }
            }
            assert forall|i: int| 0 <= i < n + 1 implies (#[trigger] self.nodes@[order[i] as int]).next
                == (if i == n { None } else { Some(order[i + 1]) }) by {
                if i < n - 1 {
                    assert(order[i] != order[n - 1]);
                }
            }
            assert(self@ =~= old(self)@.push(task));
        }
    }

    /// The number of tasks in the bucket.
    pub fn len(&self) -> (r: usize)
        requires
            self.wf(),
        ensures
            r == self@.len(),
    {
        self.size
    }

    /// Whether the bucket holds no task.
    pub fn is_empty(&self) -> (r: bool)
        requires
            self.wf(),
        ensures
            r == (self@.len() == 0),
    {
        self.size == 0
    }

    /// The first task, if any.
    pub fn get_head(&self) -> (r: Option<Task>)
        requires
            self.wf(),
        ensures
            r == (if self@.len() == 0 { None } else { Some(self@[0]) }),
    {
        proof {
            reveal(is_perm);
            reveal(links_agree);
        }
        match self.head {
            Some(h) => Some(self.nodes[h].task),
            None => None,
        }
    }

    /// The last task, if any.
    pub fn get_tail(&self) -> (r: Option<Task>)
        requires
            self.wf(),
        ensures
            r == (if self@.len() == 0 { None } else { Some(self@[self@.len() - 1]) }),
    {
        proof {
            reveal(is_perm);
            reveal(links_agree);
        }
        match self.tail {
            Some(t) => Some(self.nodes[t].task),
            None => None,
        }
    }

    /// Finds the slot of the first task with identity `id` by walking the
    /// links from the head.
    fn locate(&self, id: i32) -> (r: Option<usize>)
        requires
            self.wf(),
        ensures
            r is Some <==> has_id(self@, id),
            r matches Some(k) ==> k < self.nodes@.len() && is_first_with_id(self@, id, self.pos@[k as int])
                && self.order@[self.pos@[k as int]] == k,
    {
        proof {
            reveal(is_perm);
            reveal(links_agree);
        }
        let ghost n = self.nodes@.len() as int;
        let mut cur = self.head;
        let ghost mut i: int = 0;
        loop
            invariant
                self.wf(),
                n == self.nodes@.len(),
                0 <= i <= n,
                cur == (if i < n { Some(self.order@[i]) } else { None::<usize> }),
                forall|j: int| 0 <= j < i ==> self@[j].id != id,
            decreases n - i,
        {
            match cur {
                None => {
                    return None;
                },
                Some(k) => {
                    proof {
                        reveal(is_perm);
                        reveal(links_agree);
                    }
                    assert(self@[i] == self.nodes@[k as int].task);
                    if self.nodes[k].task.id == id {
                        return Some(k);
                    }
                    cur = self.nodes[k].next;
                    proof {
                        i = i + 1;
                    }
                },
            }
        }
    }

    /// The node of the first task whose identity is that of `value`.
    pub fn search_by_task(&self, value: Task) -> (r: Option<&Node>)
        requires
            self.wf(),
        ensures
            r is Some <==> has_id(self@, value.id),
            r matches Some(node) ==> exists|i: int|
                is_first_with_id(self@, value.id, i) && node.task_spec() == self@[i],
    {
        proof {
            reveal(is_perm);
            reveal(links_agree);
        }
        match self.locate(value.id) {
            Some(k) => {
                let ghost i = self.pos@[k as int];
                assert(self@[i] == self.nodes@[k as int].task);
                Some(&self.nodes[k])
            },
            None => None,
        }
    }

    /// The tasks in order, gathered by a forward traversal of the links.
    pub fn to_vec(&self) -> (r: Vec<Task>)
        requires
            self.wf(),
        ensures
            r@ == self@,
    {
        proof {
            reveal(is_perm);
            reveal(links_agree);
        }
        let ghost n = self.nodes@.len() as int;
        let mut out: Vec<Task> = Vec::new();
        let mut cur = self.head;
        let ghost mut i: int = 0;
        while cur.is_some()
            invariant
                self.wf(),
                n == self.nodes@.len(),
                0 <= i <= n,
                cur == (if i < n { Some(self.order@[i]) } else { None::<usize> }),
                out@ == self@.subrange(0, i),
            decreases n - i,
        {
            proof {
                reveal(is_perm);
                reveal(links_agree);
            }
            let k = cur.unwrap();
            out.push(self.nodes[k].task);
            cur = self.nodes[k].next;
            proof {
                i = i + 1;
                assert(out@ =~= self@.subrange(0, i));
            }
        }
        assert(out@ =~= self@);
        out
    }

    /// Splices the node at position `p` (arena slot `k`) out of the links:
    /// its predecessor now leads to its successor and back. The slot itself
    /// stays in the arena.
    fn unlink(&mut self, k: usize, Ghost(p): Ghost<int>)
        requires
            old(self).wf(),
            0 <= p < old(self)@.len(),
            old(self).order@[p] == k,
        ensures
            final(self).order == old(self).order,
            final(self).pos == old(self).pos,
            final(self).size == old(self).size,
            final(self).nodes@.len() == old(self).nodes@.len(),
            forall|s: int| 0 <= s < old(self).nodes@.len() ==> (#[trigger] final(self).nodes@[s]).task == old(self).nodes@[s].task,
            links_agree(final(self).nodes@, old(self).order@.remove(p), final(self).head, final(self).tail),
    {
        proof {
            reveal(is_perm);
            reveal(links_agree);
        }
        let ghost n = self.nodes@.len() as int;
        let ghost order = self.order@;
        let ghost pos = self.pos@;
        let node = self.nodes[k];
        match node.prev {
            Some(pk) => {
                let mut pn = self.nodes[pk];
                pn.next = node.next;
                self.nodes.set(pk, pn);
            },
            None => {
                self.head = node.next;
            },
        }
        match node.next {
            Some(nk) => {
                let mut nn = self.nodes[nk];
                nn.prev = node.prev;
                self.nodes.set(nk, nn);
            },
            None => {
                self.tail = node.prev;
            },
        }
        let ghost nodes1 = self.nodes@;
        let ghost order1 = order.remove(p);
        proof {
            assert forall|i: int, j: int| 0 <= i < n && 0 <= j < n && order[i] == order[j] implies i == j by {
                assert(pos[order[i] as int] == i);
            }
            assert forall|i: int| 0 <= i < n - 1 implies (#[trigger] nodes1[order1[i] as int]).prev == (if i == 0 {
                None
            } else {
                Some(order1[i - 1])
            }) && nodes1[order1[i] as int].next == (if i == n - 2 {
                None
            } else {
                Some(order1[i + 1])
            }) by {
                let q = if i < p { i } else { i + 1 };
                assert(order1[i] == order[q]);
                if i > 0 {
                    assert(order1[i - 1] == (if i - 1 < p { order[i - 1] } else { order[i] }));
                }
                if i < n - 2 {
                    assert(order1[i + 1] == (if i + 1 < p { order[i + 1] } else { order[i + 2] }));
                }
            }
            assert(links_agree(nodes1, order1, self.head, self.tail));
        }
    }

    /// Moves the node in the last arena slot into slot `k` (`k` is not the
    /// last slot, and no link names it) and points its neighbours at `k`.
    fn relocate_last(&mut self, k: usize)
        requires
            k + 1 < old(self).nodes@.len(),
            ({
                let last = old(self).nodes@.len() - 1;
                let mv = old(self).nodes@[last];
                &&& mv.prev matches Some(a) ==> a < last && a != k
                &&& mv.next matches Some(b) ==> b < last && b != k
                &&& (mv.prev is Some && mv.next is Some ==> mv.prev.unwrap() != mv.next.unwrap())
            }),
        ensures
            ({
                let last = old(self).nodes@.len() - 1;
                let mv = old(self).nodes@[last];
                &&& final(self).nodes@.len() == last
                &&& forall|s: int|
                    0 <= s < last ==> (#[trigger] final(self).nodes@[s]) == (if s == k {
                        mv
                    } else if mv.prev == Some(s as usize) {
                        Node { next: Some(k), ..old(self).nodes@[s] }
                    } else if mv.next == Some(s as usize) {
                        Node { prev: Some(k), ..old(self).nodes@[s] }
                    } else {
                        old(self).nodes@[s]
                    })
                &&& final(self).head == (if mv.prev is None { Some(k) } else { old(self).head })
                &&& final(self).tail == (if mv.next is None { Some(k) } else { old(self).tail })
            }),
            final(self).order == old(self).order,
            final(self).pos == old(self).pos,
            final(self).size == old(self).size,
    {
        let last = self.nodes.len() - 1;
        let mv = self.nodes[last];
        self.nodes.swap_remove(k);
        match mv.prev {
            Some(a) => {
                let mut an = self.nodes[a];
                an.next = Some(k);
                self.nodes.set(a, an);
            },
            None => {
                self.head = Some(k);
            },
        }
        match mv.next {
            Some(b) => {
                let mut bn = self.nodes[b];
                bn.prev = Some(k);
                self.nodes.set(b, bn);
            },
            None => {
                self.tail = Some(k);
            },
        }
    }

    /// Frees arena slot `k`, already unlinked from position `p` of `order`:
    /// the last slot moves into it and its neighbours are patched, so the
    /// arena stays dense.
    fn compact(&mut self, k: usize, Ghost(p): Ghost<int>)
        requires
            old(self).size == old(self).nodes@.len(),
            old(self).order@.len() == old(self).nodes@.len(),
            old(self).pos@.len() == old(self).nodes@.len(),
            is_perm(old(self).order@, old(self).pos@, old(self).nodes@.len()),
            0 <= p < old(self).nodes@.len(),
            old(self).order@[p] == k,
            links_agree(old(self).nodes@, old(self).order@.remove(p), old(self).head, old(self).tail),
        ensures
            final(self).wf(),
            final(self)@ == old(self).order@.remove(p).map_values(|x: usize| old(self).nodes@[x as int].task),
    {
        let ghost order = self.order@;
        let ghost pos = self.pos@;
        let ghost nodes1 = self.nodes@;
        let ghost order1 = order.remove(p);
        let ghost head1 = self.head;
        let ghost tail1 = self.tail;
        let last = self.nodes.len() - 1;
        proof {
            lemma_unlinked(nodes1, order, pos, p, k, head1, tail1);
        }
        if k != last {
            self.relocate_last(k);
        } else {
            self.nodes.pop();
        }
        self.size = self.size - 1;
        self.order = Ghost(order1.map_values(|x: usize| moved(x, last, k)));
        self.pos = Ghost(shifted_pos(pos, p, k, last));
        proof {
            let nodes3 = self.nodes@;
            assert(self.head == relabel(head1, last, k));
            assert(self.tail == relabel(tail1, last, k));
            lemma_moved_slots(nodes1, nodes3, order1, k, last);
            lemma_relabel_perm(order, pos, p, k, last);
            lemma_relabel_links(nodes1, nodes3, order1, k, last, head1, tail1);
            assert(self@ =~= order1.map_values(|x: usize| nodes1[x as int].task));
        }
    }

    /// Removes the node at position `p` (arena slot `k`) and returns its task.
    fn detach(&mut self, k: usize, Ghost(p): Ghost<int>) -> (task: Task)
        requires
            old(self).wf(),
            0 <= p < old(self)@.len(),
            old(self).order@[p] == k,
        ensures
            final(self).wf(),
            task == old(self)@[p],
            final(self)@ == old(self)@.remove(p),
    {
        proof {
            reveal(is_perm);
            reveal(links_agree);
        }
        let task = self.nodes[k].task;
        let ghost nodes0 = self.nodes@;
        self.unlink(k, Ghost(p));
        let ghost nodes1 = self.nodes@;
        let ghost order1 = self.order@.remove(p);
        self.compact(k, Ghost(p));
        proof {
            assert forall|i: int| 0 <= i < order1.len() implies nodes1[(#[trigger] order1[i]) as int].task
                == nodes0[order1[i] as int].task by {
                let q = if i < p { i } else { i + 1 };
                assert(order1[i] == old(self).order@[q]);
            }
            assert(self@ =~= old(self)@.remove(p));
        }
        task
    }

    /// Removes and returns the first task; `None` on an empty bucket.
    pub fn pop(&mut self) -> (r: Option<Task>)
        requires
            old(self).wf(),
        ensures
            final(self).wf(),
            old(self)@.len() == 0 ==> r is None && final(self)@ == old(self)@,
            old(self)@.len() > 0 ==> r == Some(old(self)@[0]) && final(self)@ == old(self)@.drop_first(),
    {
        proof {
            reveal(links_agree);
        }
        match self.head {
            None => None,
            Some(h) => {
                let t = self.detach(h, Ghost(0));
                assert(old(self)@.remove(0) =~= old(self)@.drop_first());
                Some(t)
            },
        }
    }

    /// Removes and returns the last task; `None` on an empty bucket.
    pub fn pop_back(&mut self) -> (r: Option<Task>)
        requires
            old(self).wf(),
        ensures
            final(self).wf(),
            old(self)@.len() == 0 ==> r is None && final(self)@ == old(self)@,
            old(self)@.len() > 0 ==> r == Some(old(self)@.last()) && final(self)@ == old(self)@.drop_last(),
    {
        proof {
            reveal(links_agree);
        }
        match self.tail {
            None => None,
            Some(t) => {
                let ghost n = self@.len() as int;
                let task = self.detach(t, Ghost(n - 1));
                assert(old(self)@.remove(n - 1) =~= old(self)@.drop_last());
                Some(task)
            },
        }
    }

    /// Splices out the interior node in slot `k`, at position `p`.
    fn pop_mid(&mut self, k: usize, Ghost(p): Ghost<int>) -> (r: Task)
        requires
            old(self).wf(),
            0 < p < old(self)@.len() - 1,
            old(self).order@[p] == k,
        ensures
            final(self).wf(),
            r == old(self)@[p],
            final(self)@ == old(self)@.remove(p),
    {
        self.detach(k, Ghost(p))
    }

    /// Removes the first task whose identity is that of `t_task`: the head
    /// and the tail go through `pop` and `pop_back`, any other node is
    /// spliced out. `None`, with the bucket unchanged, when no task matches.
    pub fn delete_task(&mut self, t_task: &Task) -> (r: Option<Task>)
        requires
            old(self).wf(),
        ensures
            final(self).wf(),
            !has_id(old(self)@, t_task.id) ==> r is None && final(self)@ == old(self)@,
            has_id(old(self)@, t_task.id) ==> exists|i: int|
                is_first_with_id(old(self)@, t_task.id, i) && r == Some(old(self)@[i]) && final(self)@
                    == old(self)@.remove(i),
    {
        proof {
            reveal(links_agree);
        }
        match self.locate(t_task.id) {
            None => None,
            Some(k) => {
                let ghost p = self.pos@[k as int];
                let ghost n = self@.len() as int;
                if Some(k) == self.head {
                    assert(p == 0);
                    let r = self.pop();
                    assert(old(self)@.remove(0) =~= old(self)@.drop_first());
                    r
                } else if Some(k) == self.tail {
                    assert(p == n - 1);
                    let r = self.pop_back();
                    assert(old(self)@.remove(n - 1) =~= old(self)@.drop_last());
                    r
                } else {
                    Some(self.pop_mid(k, Ghost(p)))
                }
            },
        }
    }
}

/// The bucket after appending each task of `ts` in turn, as `push_back` does.
pub open spec fn pushes(s: Seq<Task>, ts: Seq<Task>) -> Seq<Task>
    decreases ts.len(),
{
    if ts.len() == 0 {
        s
    } else {
        pushes(s.push(ts[0]), ts.drop_first())
    }
}

/// What `n` successive calls of `pop` return, starting from bucket `s`.
pub open spec fn front_pops(s: Seq<Task>, n: nat) -> Seq<Option<Task>>
    decreases n,
{
    if n == 0 {
        Seq::empty()
    } else if s.len() == 0 {
        seq![None] + front_pops(s, (n - 1) as nat)
    } else {
        seq![Some(s[0])] + front_pops(s.drop_first(), (n - 1) as nat)
    }
}

/// Pushing a sequence of tasks appends it.
proof fn lemma_pushes_appends(s: Seq<Task>, ts: Seq<Task>)
    ensures
        pushes(s, ts) == s + ts,
    decreases ts.len(),
{
    if ts.len() == 0 {
        assert(s + ts =~= s);
    } else {
        lemma_pushes_appends(s.push(ts[0]), ts.drop_first());
        assert(s.push(ts[0]) + ts.drop_first() =~= s + ts);
    }
}

/// Popping a bucket as many times as it has tasks yields each of them, in order.
proof fn lemma_pops_all(ts: Seq<Task>)
    ensures
        front_pops(ts, ts.len()) == ts.map_values(|t: Task| Some(t)),
    decreases ts.len(),
{
    if ts.len() == 0 {
        assert(ts.map_values(|t: Task| Some(t)) =~= Seq::<Option<Task>>::empty());
    } else {
        lemma_pops_all(ts.drop_first());
        assert(seq![Some(ts[0])] + ts.drop_first().map_values(|t: Task| Some(t)) =~= ts.map_values(
            |t: Task| Some(t),
        ));
    }
}

/// FIFO order of a bucket: pushing `ts` into an empty bucket and then popping
/// from the front as many times gives back exactly `ts`, in order; popping an
/// empty bucket gives nothing.
pub proof fn lemma_bucket_fifo(ts: Seq<Task>)
    ensures
        front_pops(pushes(Seq::empty(), ts), ts.len()) == ts.map_values(|t: Task| Some(t)),
        front_pops(Seq::empty(), 1) == seq![None::<Task>],
{
    lemma_pushes_appends(Seq::empty(), ts);
    assert(Seq::<Task>::empty() + ts =~= ts);
    lemma_pops_all(ts);
    assert(front_pops(Seq::empty(), 0) == Seq::<Option<Task>>::empty());
    assert(seq![None::<Task>] + Seq::<Option<Task>>::empty() =~= seq![None::<Task>]);
}

/// Following the links from position `i` meets the rest of `order`, then stops.
proof fn lemma_walk_from(l: &LinkList, i: int, fuel: nat)
    requires
        l.wf(),
        0 <= i <= l.nodes@.len(),
        fuel >= l.nodes@.len() - i,
    ensures
        walk(
            l.nodes@,
            if i < l.nodes@.len() { Some(l.order@[i]) } else { None },
            fuel,
        ) == l.order@.subrange(i, l.nodes@.len() as int),
    decreases l.nodes@.len() - i,
{
    reveal(is_perm);
    reveal(links_agree);
    let n = l.nodes@.len() as int;
    if i == n {
        assert(l.order@.subrange(i, n) =~= Seq::<usize>::empty());
    } else {
        lemma_walk_from(l, i + 1, (fuel - 1) as nat);
        assert(seq![l.order@[i]] + l.order@.subrange(i + 1, n) =~= l.order@.subrange(i, n));
    }
}

/// The `size` counter of a well-formed bucket equals the number of nodes a
/// full forward traversal from the head meets, and that traversal meets the
/// bucket's tasks in order. Every operation keeps the bucket well formed, so
/// this holds after any sequence of them.
pub proof fn lemma_size_is_traversal_count(l: &LinkList)
    requires
        l.wf(),
    ensures
        l.size_spec() == l.forward_walk().len(),
        l.forward_tasks() == l@,
{
    lemma_walk_from(l, 0, l.nodes@.len());
    assert(l.order@.subrange(0, l.nodes@.len() as int) =~= l.order@);
    reveal(links_agree);
}

} // verus!
