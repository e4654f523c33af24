//! Doubly-linked list with insertion and removal at both ends.
//!
//! The nodes are stored in an arena (a `Vec`) and link to each other by
//! index: `next` points toward the tail, `prev` toward the head. The arena is
//! kept compact, so it always holds exactly one slot per element and a popped
//! node is released at once.
use vstd::prelude::*;

verus! {

/// One element of the list together with the indices of its neighbours.
#[derive(Clone, Copy)]
struct Node<T: Copy> {
    data: T,
    next: Option<usize>,
    prev: Option<usize>,
}

impl<T: Copy> Node<T> {
    /// A node holding `data` and linked to nothing.
    fn new(data: T) -> (r: Node<T>)
        ensures
            r.data == data,
            r.next is None,
            r.prev is None,
    {
        Node { data, next: None, prev: None }
    }
}

/// A double-ended list of `T` values.
pub struct DLList<T: Copy> {
    nodes: Vec<Node<T>>,
    head: Option<usize>,
    tail: Option<usize>,
    len: usize,
    /// Arena index of each element, from head to tail.
    order: Ghost<Seq<usize>>,
}

/// The element before position `i` of the chain `ord`, if any.
spec fn prev_in(ord: Seq<usize>, i: int) -> Option<usize> {
    if i == 0 {
        None
    } else {
        Some(ord[i - 1])
    }
}

/// The element after position `i` of the chain `ord`, if any.
spec fn next_in(ord: Seq<usize>, i: int) -> Option<usize> {
    if i == ord.len() - 1 {
        None
    } else {
        Some(ord[i + 1])
    }
}

/// `ord` lists distinct slots of `nodes`, `head` and `tail` name its ends,
/// and the links of every listed node name its neighbours in `ord`.
spec fn chain<T: Copy>(
    nodes: Seq<Node<T>>,
    ord: Seq<usize>,
    head: Option<usize>,
    tail: Option<usize>,
) -> bool {
    &&& forall|i: int| 0 <= i < ord.len() ==> #[trigger] ord[i] < nodes.len()
    &&& forall|i: int, j: int| 0 <= i < ord.len() && 0 <= j < ord.len() && i != j ==> ord[i] != ord[j]
    &&& head == (if ord.len() == 0 { None } else { Some(ord[0]) })
    &&& tail == (if ord.len() == 0 { None } else { Some(ord.last()) })
    &&& forall|i: int|
        0 <= i < ord.len() ==> nodes[#[trigger] ord[i] as int].prev == prev_in(ord, i)
            && nodes[ord[i] as int].next == next_in(ord, i)
}

/// Slot `a` is listed in `ord`.
spec fn listed(ord: Seq<usize>, a: usize) -> bool {
    exists|i: int| 0 <= i < ord.len() && ord[i] == a
}

/// Every slot below `n` is listed in `ord`.
spec fn covers(ord: Seq<usize>, n: nat) -> bool {
    forall|a: usize| a < n ==> #[trigger] listed(ord, a)
}

/// `ord` with slot `from` renamed to `to`.
spec fn renamed(ord: Seq<usize>, from: usize, to: usize) -> Seq<usize> {
    ord.map_values(|x: usize| if x == from { to } else { x })
}

/// Moving the node of the last slot into the free slot `k` keeps the chain
/// intact once the moved node's neighbours and the ends name `k` instead.
proof fn lemma_relocated<T: Copy>(
    nodes0: Seq<Node<T>>,
    ord: Seq<usize>,
    head0: Option<usize>,
    tail0: Option<usize>,
    nodes2: Seq<Node<T>>,
    head2: Option<usize>,
    tail2: Option<usize>,
    k: usize,
    q: int,
)
    requires
        chain(nodes0, ord, head0, tail0),
        nodes0.len() == ord.len() + 1,
        k < nodes0.len() - 1,
        !listed(ord, k),
        forall|a: usize| a < nodes0.len() && a != k ==> #[trigger] listed(ord, a),
        0 <= q < ord.len(),
        ord[q] == nodes0.len() - 1,
        nodes2.len() == nodes0.len() - 1,
        nodes2[k as int] == nodes0[nodes0.len() - 1],
        forall|a: int| 0 <= a < nodes2.len() && a != k ==> {
            let n = #[trigger] nodes2[a];
            &&& n.data == nodes0[a].data
            &&& n.prev == (if q + 1 < ord.len() && a == ord[q + 1] {
                Some(k)
            } else {
                nodes0[a].prev
            })
            &&& n.next == (if q > 0 && a == ord[q - 1] {
                Some(k)
            } else {
                nodes0[a].next
            })
        },
        head2 == (if q == 0 { Some(k) } else { head0 }),
        tail2 == (if q == ord.len() - 1 { Some(k) } else { tail0 }),
    ensures
        chain(nodes2, renamed(ord, (nodes0.len() - 1) as usize, k), head2, tail2),
        covers(renamed(ord, (nodes0.len() - 1) as usize, k), nodes2.len()),
        forall|i: int| 0 <= i < ord.len() ==>
            nodes2[#[trigger] renamed(ord, (nodes0.len() - 1) as usize, k)[i] as int].data
                == nodes0[ord[i] as int].data,
{
    let last = (nodes0.len() - 1) as usize;
    let ord2 = renamed(ord, last, k);
    assert forall|i: int| 0 <= i < ord.len() && i != q implies ord[i] != last && ord[i] != k
        && #[trigger] ord2[i] == ord[i] by {
        if ord[i] == k {
            assert(listed(ord, k));
        }
    }
    assert(ord2[q] == k);
    assert forall|i: int| 0 <= i < ord2.len() implies {
        &&& #[trigger] ord2[i] < nodes2.len()
        &&& nodes2[ord2[i] as int].prev == prev_in(ord2, i)
        &&& nodes2[ord2[i] as int].next == next_in(ord2, i)
        &&& nodes2[ord2[i] as int].data == nodes0[ord[i] as int].data
    } by {
        if i != q {
            assert(ord[i] != ord[q]);
            if q + 1 < ord.len() {
                assert(ord[q + 1] != ord[q]);
            }
            if q > 0 {
                assert(ord[q - 1] != ord[q]);
            }
        }
    }
    assert forall|i: int, j: int| 0 <= i < ord2.len() && 0 <= j < ord2.len() && i != j
        implies ord2[i] != ord2[j] by {
        assert(ord2[i] == ord[i] || ord2[i] == k);
        assert(ord2[j] == ord[j] || ord2[j] == k);
    }
    assert forall|a: usize| a < nodes2.len() implies #[trigger] listed(ord2, a) by {
        if a == k {
            assert(ord2[q] == k);
        } else {
            assert(listed(ord, a));
            let i = choose|i: int| 0 <= i < ord.len() && ord[i] == a;
            assert(ord2[i] == a);
        }
    }
}

/// The list after `v` is inserted at the front.
pub open spec fn pushed_front<T>(s: Seq<T>, v: T) -> Seq<T> {
    seq![v] + s
}

/// The list after `v` is inserted at the back.
pub open spec fn pushed_back<T>(s: Seq<T>, v: T) -> Seq<T> {
    s.push(v)
}

/// What removing the front element of `s` returns, and what is left.
pub open spec fn popped_front<T>(s: Seq<T>) -> (Option<T>, Seq<T>) {
    if s.len() == 0 {
        (None, s)
    } else {
        (Some(s[0]), s.drop_first())
    }
}

/// What removing the back element of `s` returns, and what is left.
pub open spec fn popped_back<T>(s: Seq<T>) -> (Option<T>, Seq<T>) {
    if s.len() == 0 {
        (None, s)
    } else {
        (Some(s.last()), s.drop_last())
    }
}

impl<T: Copy> View for DLList<T> {
    type V = Seq<T>;

    /// The stored values from head to tail.
    closed spec fn view(&self) -> Seq<T> {
        Seq::new(self.order@.len(), |i: int| self.nodes@[self.order@[i] as int].data)
    }
}

impl<T: Copy> DLList<T> {
    /// The structural invariant: the links form one chain from `head` to
    /// `tail` through every arena slot, and `len` counts its nodes.
    pub closed spec fn wf(&self) -> bool {
        &&& chain(self.nodes@, self.order@, self.head, self.tail)
        &&& covers(self.order@, self.nodes@.len())
        &&& self.order@.len() == self.len
        &&& self.nodes@.len() == self.len
    }

    /// The number of nodes the list keeps allocated.
    pub closed spec fn slots(&self) -> nat {
        self.nodes@.len()
    }

    /// The arena never holds a node that is not in the list: a well-formed
    /// list keeps exactly one slot per element, so a list that has been
    /// emptied retains no node at all.
    pub proof fn lemma_no_node_retained(&self)
        requires
            self.wf(),
        ensures
            self.slots() == self@.len(),
            self@.len() == 0 ==> self.slots() == 0,
    {
    }

    /// An empty list.
    pub fn new() -> (r: Self)
        ensures
            r.wf(),
            r@ == Seq::<T>::empty(),
    {
        DLList { nodes: Vec::new(), head: None, tail: None, len: 0, order: Ghost(Seq::empty()) }
    }

    /// The number of elements.
    pub fn size(&self) -> (r: usize)
        requires
            self.wf(),
        ensures
            r == self@.len(),
    {
        self.len
    }

    /// Inserts `value` before the first element.
    pub fn push_front(&mut self, value: T)
        requires
            old(self).wf(),
            old(self)@.len() < usize::MAX,
        ensures
            final(self).wf(),
            final(self)@ == pushed_front(old(self)@, value),
    {
        let ghost ord = self.order@;
        let k = self.nodes.len();
        let mut node = Node::new(value);
        match self.head {
            None => {
                self.nodes.push(node);
                self.tail = Some(k);
            },
            Some(h) => {
                node.next = Some(h);
                let mut first = self.nodes[h];
                first.prev = Some(k);
                self.nodes.set(h, first);
                self.nodes.push(node);
            },
        }
        self.head = Some(k);
        self.len = self.len + 1;
        self.order = Ghost(seq![k] + ord);
        proof {
            let ord2 = self.order@;
            assert forall|i: int| 0 <= i < ord.len() implies #[trigger] ord[i] != k
                && ord2[i + 1] == ord[i] by {}
            assert forall|i: int| 0 <= i < ord2.len() implies {
                &&& #[trigger] ord2[i] < self.nodes@.len()
                &&& self.nodes@[ord2[i] as int].prev == prev_in(ord2, i)
                &&& self.nodes@[ord2[i] as int].next == next_in(ord2, i)
            } by {
                if i > 0 {
                    assert(ord2[i] == ord[i - 1]);
                }
            }
            assert forall|a: usize| a < self.nodes@.len() implies #[trigger] listed(ord2, a) by {
                if a == k {
                    assert(ord2[0] == k);
                } else {
                    assert(listed(ord, a));
                    let i = choose|i: int| 0 <= i < ord.len() && ord[i] == a;
                    assert(ord2[i + 1] == a);
                }
            }
            assert(self@ =~= pushed_front(old(self)@, value));
        }
    }

    /// Inserts `value` after the last element.
    pub fn push_back(&mut self, value: T)
        requires
            old(self).wf(),
            old(self)@.len() < usize::MAX,
        ensures
            final(self).wf(),
            final(self)@ == pushed_back(old(self)@, value),
    {
        let ghost ord = self.order@;
        let k = self.nodes.len();
        let mut node = Node::new(value);
        match self.tail {
            None => {
                self.nodes.push(node);
                self.head = Some(k);
            },
            Some(t) => {
                node.prev = Some(t);
                let mut last = self.nodes[t];
                last.next = Some(k);
                self.nodes.set(t, last);
                self.nodes.push(node);
            },
        }
        self.tail = Some(k);
        self.len = self.len + 1;
        self.order = Ghost(ord.push(k));
        proof {
            let ord2 = self.order@;
            assert forall|i: int| 0 <= i < ord.len() implies #[trigger] ord[i] != k
                && ord2[i] == ord[i] by {}
            assert forall|i: int| 0 <= i < ord2.len() implies {
                &&& #[trigger] ord2[i] < self.nodes@.len()
                &&& self.nodes@[ord2[i] as int].prev == prev_in(ord2, i)
                &&& self.nodes@[ord2[i] as int].next == next_in(ord2, i)
            } by {
                if i < ord.len() {
                    assert(ord2[i] == ord[i]);
                }
            }
            assert forall|a: usize| a < self.nodes@.len() implies #[trigger] listed(ord2, a) by {
                if a == k {
                    assert(ord2[ord.len() as int] == k);
                } else {
                    assert(listed(ord, a));
                    let i = choose|i: int| 0 <= i < ord.len() && ord[i] == a;
                    assert(ord2[i] == a);
                }
            }
            assert(self@ =~= pushed_back(old(self)@, value));
        }
    }

    /// The values from head to tail, collected by following the `next` links.
    pub fn values(&self) -> (r: Vec<T>)
        requires
            self.wf(),
        ensures
            r@ == self@,
    {
        let ghost ord = self.order@;
        let mut out: Vec<T> = Vec::new();
        let mut cur = self.head;
        let mut i: usize = 0;
        while i < self.len
            invariant
                self.wf(),
                ord == self.order@,
                i <= self.len,
                cur == (if i < self.len { Some(ord[i as int]) } else { None::<usize> }),
                out@ =~= self@.subrange(0, i as int),
            decreases self.len - i,
        {
            let idx = cur.unwrap();
            let node = self.nodes[idx];
            out.push(node.data);
            cur = node.next;
            i = i + 1;
        }
        out
    }

    /// The values from tail to head, collected by following the `prev` links.
    pub fn values_rev(&self) -> (r: Vec<T>)
        requires
            self.wf(),
        ensures
            r@ == self@.reverse(),
    {
        let ghost ord = self.order@;
        let mut out: Vec<T> = Vec::new();
        let mut cur = self.tail;
        let mut i: usize = self.len;
        while i > 0
            invariant
                self.wf(),
                ord == self.order@,
                i <= self.len,
                cur == (if i > 0 { Some(ord[i - 1]) } else { None::<usize> }),
                out@ =~= self@.subrange(i as int, self.len as int).reverse(),
            decreases i,
        {
            let idx = cur.unwrap();
            let node = self.nodes[idx];
            out.push(node.data);
            cur = node.prev;
            i = i - 1;
        }
        out
    }

    /// Frees arena slot `k`, which no element uses any more: the node in the
    /// last slot moves into it and its neighbours are relinked to its new
    /// index.
    fn release_slot(&mut self, k: usize)
        requires
            k < old(self).nodes@.len(),
            old(self).nodes@.len() == old(self).order@.len() + 1,
            old(self).order@.len() == old(self).len,
            chain(old(self).nodes@, old(self).order@, old(self).head, old(self).tail),
            !listed(old(self).order@, k),
            forall|a: usize|
                a < old(self).nodes@.len() && a != k ==> #[trigger] listed(old(self).order@, a),
        ensures
            final(self).wf(),
            final(self)@ == old(self)@,
    {
        let ghost ord = self.order@;
        let ghost nodes0 = self.nodes@;
        let last = self.nodes.len() - 1;
        if k != last {
            let moved = self.nodes[last];
            assert(listed(ord, last));
            let ghost q = choose|i: int| 0 <= i < ord.len() && ord[i] == last;
            match moved.prev {
                Some(p) => {
                    let mut before = self.nodes[p];
                    before.next = Some(k);
                    self.nodes.set(p, before);
                },
                None => {
                    self.head = Some(k);
                },
            }
            match moved.next {
                Some(n) => {
                    let mut after = self.nodes[n];
                    after.prev = Some(k);
                    self.nodes.set(n, after);
                },
                None => {
                    self.tail = Some(k);
                },
            }
            let ghost nodes1 = self.nodes@;
            self.order = Ghost(renamed(ord, last, k));
            self.nodes.swap_remove(k);
            proof {
                assert forall|a: int| 0 <= a < self.nodes@.len() && a != k implies {
                    let n = #[trigger] self.nodes@[a];
                    &&& n.data == nodes0[a].data
                    &&& n.prev == (if q + 1 < ord.len() && a == ord[q + 1] {
                        Some(k)
                    } else {
                        nodes0[a].prev
                    })
                    &&& n.next == (if q > 0 && a == ord[q - 1] {
                        Some(k)
                    } else {
                        nodes0[a].next
                    })
                } by {
                    assert(self.nodes@[a] == nodes1[a]);
                }
                lemma_relocated(nodes0, ord, old(self).head, old(self).tail, self.nodes@, self.head, self.tail, k, q);
            }
        } else {
            self.nodes.swap_remove(k);
            proof {
                assert forall|a: usize| a < self.nodes@.len() implies #[trigger] listed(ord, a) by {
                    assert(listed(ord, a));
                }
            }
        }
        assert(self@ =~= old(self)@);
    }

    /// Removes the first element and returns it, or `None` when the list is
    /// empty.
    pub fn pop_front(&mut self) -> (r: Option<T>)
        requires
            old(self).wf(),
        ensures
            final(self).wf(),
            (r, final(self)@) == popped_front(old(self)@),
    {
        match self.head {
            None => None,
            Some(k) => {
                let ghost ord = self.order@;
                let node = self.nodes[k];
                match node.next {
                    Some(n) => {
                        let mut second = self.nodes[n];
                        second.prev = None;
                        self.nodes.set(n, second);
                        self.head = Some(n);
                    },
                    None => {
                        self.head = None;
                        self.tail = None;
                    },
                }
                self.order = Ghost(ord.drop_first());
                self.len = self.len - 1;
                proof {
                    let ord2 = self.order@;
                    assert forall|i: int| 0 <= i < ord2.len() implies
                        self.nodes@[#[trigger] ord2[i] as int].prev == prev_in(ord2, i)
                        && self.nodes@[ord2[i] as int].next == next_in(ord2, i) by {
                        assert(ord2[i] == ord[i + 1]);
                    }
                    assert forall|a: usize| a < self.nodes@.len() && a != k
                        implies #[trigger] listed(ord2, a) by {
                        assert(listed(ord, a));
                        let i = choose|i: int| 0 <= i < ord.len() && ord[i] == a;
                        assert(ord2[i - 1] == a);
                    }
                    assert(self@ =~= old(self)@.drop_first());
                }
                self.release_slot(k);
                Some(node.data)
            },
        }
    }

    /// Removes the last element and returns it, or `None` when the list is
    /// empty.
    pub fn pop_back(&mut self) -> (r: Option<T>)
        requires
            old(self).wf(),
        ensures
            final(self).wf(),
            (r, final(self)@) == popped_back(old(self)@),
    {
        match self.tail {
            None => None,
            Some(k) => {
                let ghost ord = self.order@;
                let node = self.nodes[k];
                match node.prev {
                    Some(p) => {
                        let mut before = self.nodes[p];
                        before.next = None;
                        self.nodes.set(p, before);
                        self.tail = Some(p);
                    },
                    None => {
                        self.head = None;
                        self.tail = None;
                    },
                }
                self.order = Ghost(ord.drop_last());
                self.len = self.len - 1;
                proof {
                    let ord2 = self.order@;
                    assert forall|i: int| 0 <= i < ord2.len() implies
                        self.nodes@[#[trigger] ord2[i] as int].prev == prev_in(ord2, i)
                        && self.nodes@[ord2[i] as int].next == next_in(ord2, i) by {
                        assert(ord2[i] == ord[i]);
                    }
                    assert forall|a: usize| a < self.nodes@.len() && a != k
                        implies #[trigger] listed(ord2, a) by {
                        assert(listed(ord, a));
                        let i = choose|i: int| 0 <= i < ord.len() && ord[i] == a;
                        assert(ord2[i] == a);
                    }
                    assert(self@ =~= old(self)@.drop_last());
                }
                self.release_slot(k);
                Some(node.data)
            },
        }
    }
}

} // verus!
