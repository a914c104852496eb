//! The ring container and its node primitive.
//!
//! A `List` owns a table of `Link` nodes and names them by `usize` handles.
//! The abstract state of a list is a sequence of distinct handles in
//! head-to-tail order, available in specifications as `self@`. The concrete
//! state is tied to that sequence by `wf()`: every member's link names its
//! ring successor, the last member's link wraps around to the head, and the
//! sentinel names the tail.

use vstd::prelude::*;
use vstd::pervasive::VecAdditionalExecFns;

verus! {

/// The link primitive: one forward slot holding the handle of the next node
/// in ring order. A node that is not a list member keeps whatever handle was
/// written last (a fresh node names itself); that stale value is never read
/// by the list.
#[derive(Clone, Copy, Debug)]
pub struct Link {
    next: usize,
}

/// A ring of nodes. `nodes` is the arena that owns every node ever created
/// for this list; `last` is the sentinel naming the current tail, absent
/// exactly when the list is empty; `ring` is the abstract member sequence in
/// head-to-tail order.
pub struct List {
    nodes: Vec<Link>,
    last: Option<usize>,
    ring: Ghost<Seq<usize>>,
}

/// The position that follows `i` in a ring of `len` members: one step
/// forward, wrapping from the last position to the first.
pub open spec fn succ_index(len: int, i: int) -> int {
    if i + 1 < len {
        i + 1
    } else {
        0
    }
}

/// The ring successor of member `e` in the member sequence `s`: the next
/// member in head-to-tail order, wrapping from the tail to the head.
pub open spec fn ring_succ(s: Seq<usize>, e: usize) -> usize {
    s[succ_index(s.len() as int, s.index_of(e))]
}

/// The ring predecessor of member `e` in the member sequence `s`: the member
/// whose link names `e`, wrapping from the head back to the tail.
pub open spec fn ring_pred(s: Seq<usize>, e: usize) -> usize {
    let i = s.index_of(e);
    if i == 0 {
        s[s.len() - 1]
    } else {
        s[i - 1]
    }
}

/// One rotation of the member sequence: the head moves to the tail and every
/// other member shifts one position toward the head.
pub open spec fn rotated(s: Seq<usize>) -> Seq<usize> {
    if s.len() == 0 {
        s
    } else {
        s.subrange(1, s.len() as int).push(s[0])
    }
}

/// Every handle in `s` names a node of the arena `nodes`.
spec fn in_bounds(nodes: Seq<Link>, s: Seq<usize>) -> bool {
    forall|i: int| 0 <= i < s.len() ==> (#[trigger] s[i]) < nodes.len()
}

/// The links of the members listed in `s` form the ring that `s` describes:
/// each member's link names the member one position forward, wrapping at the
/// end.
spec fn linked(nodes: Seq<Link>, s: Seq<usize>) -> bool {
    forall|i: int|
        0 <= i < s.len() ==> (#[trigger] nodes[s[i] as int]).next == s[succ_index(
            s.len() as int,
            i,
        )]
}

/// In a sequence without duplicates, an element's `index_of` is the one
/// position where it stands.
proof fn lemma_index_of_unique(s: Seq<usize>, k: int)
    requires
        s.no_duplicates(),
        0 <= k < s.len(),
    ensures
        s.index_of(s[k]) == k,
{
    assert(s.contains(s[k]));
    let i = s.index_of(s[k]);
    assert(0 <= i < s.len() && s[i] == s[k]);
}

/// Moving the head/tail boundary one position forward neither changes the
/// links nor which handles are members: the rotated sequence describes the
/// same ring.
proof fn lemma_rotation_keeps_ring(nodes: Seq<Link>, s: Seq<usize>)
    requires
        s.no_duplicates(),
        in_bounds(nodes, s),
        linked(nodes, s),
        s.len() > 0,
    ensures
        rotated(s).no_duplicates(),
        in_bounds(nodes, rotated(s)),
        linked(nodes, rotated(s)),
        rotated(s).len() == s.len(),
        rotated(s)[rotated(s).len() - 1] == s[0],
{
    let r = rotated(s);
    let n = s.len() as int;
    assert forall|i: int, j: int|
        0 <= i < r.len() && 0 <= j < r.len() && i != j implies r[i] != r[j] by {
        let oi: int = if i == n - 1 { 0 } else { i + 1 };
        let oj: int = if j == n - 1 { 0 } else { j + 1 };
        assert(r[i] == s[oi] && r[j] == s[oj]);
    }
    assert forall|i: int| 0 <= i < r.len() implies (#[trigger] r[i]) < nodes.len() by {
        let oi: int = if i == n - 1 { 0 } else { i + 1 };
        assert(r[i] == s[oi]);
    }
    assert forall|i: int| 0 <= i < r.len() implies (#[trigger] nodes[r[i] as int]).next == r[
        succ_index(r.len() as int, i)
    ] by {
        let oi: int = if i == n - 1 { 0 } else { i + 1 };
        assert(r[i] == s[oi]);
        assert((nodes[s[oi] as int]).next == s[succ_index(n, oi)]);
        if i < n - 1 {
            if i + 1 < n - 1 {
                assert(r[i + 1] == s[i + 2]);
            } else {
                assert(r[n - 1] == s[0]);
            }
        } else {
            assert(r[0] == s[succ_index(n, 0)] || n == 1);
        }
    }
}

impl List {
    /// How many nodes the arena holds; handles are exactly `0 .. node_count`.
    pub closed spec fn node_count(self) -> nat {
        self.nodes@.len()
    }

    /// The raw content of a node's link slot. For a member this is its ring
    /// successor; for any other node it is whatever was written last.
    pub closed spec fn slot(self, h: usize) -> usize
        recommends
            h < self.node_count(),
    {
        self.nodes@[h as int].next
    }

    /// Well-formedness: the member sequence has no duplicates, its handles
    /// name arena nodes whose links form the ring it describes, and the
    /// sentinel is absent exactly when there are no members and otherwise
    /// names the tail.
    pub closed spec fn wf(self) -> bool {
        &&& self.ring@.no_duplicates()
        &&& in_bounds(self.nodes@, self.ring@)
        &&& linked(self.nodes@, self.ring@)
        &&& match self.last {
            None => self.ring@.len() == 0,
            Some(t) => self.ring@.len() > 0 && t == self.ring@[self.ring@.len() - 1],
        }
    }

    /// Creates a new, empty list with an empty arena.
    pub fn new() -> (r: List)
        ensures
            r.wf(),
            r@ == Seq::<usize>::empty(),
            r.node_count() == 0,
    {
        List { nodes: Vec::new(), last: None, ring: Ghost(Seq::empty()) }
    }

    /// Returns true if the list does not contain any elements.
    pub fn is_empty(&self) -> (r: bool)
        requires
            self.wf(),
        ensures
            r <==> self@.len() == 0,
    {
        self.last.is_none()
    }

    /// Creates a fresh node in the arena and returns its handle. The new node
    /// is not a member of the list; its link names the node itself until a
    /// list operation overwrites it.
    pub fn new_node(&mut self) -> (h: usize)
        requires
            old(self).wf(),
        ensures
            final(self).wf(),
            final(self)@ == old(self)@,
            h == old(self).node_count(),
            final(self).node_count() == old(self).node_count() + 1,
            !final(self)@.contains(h),
            final(self).slot(h) == h,
    {
        let h = self.nodes.len();
        self.nodes.push(Link { next: h });
        proof {
            assert forall|i: int| 0 <= i < self.ring@.len() implies (#[trigger] self.nodes@[
                self.ring@[i] as int
            ]).next == self.ring@[succ_index(self.ring@.len() as int, i)] by {
                assert(self.ring@[i] < old(self).nodes@.len());
                assert(self.nodes@[self.ring@[i] as int] == old(self).nodes@[self.ring@[i] as int]);
            }
            if self@.contains(h) {
                let i = choose|i: int| 0 <= i < self.ring@.len() && self.ring@[i] == h;
                assert(self.ring@[i] < old(self).nodes@.len());
            }
        }
        h
    }

    /// The current tail: the member the sentinel names.
    fn tail(&self) -> (t: usize)
        requires
            self.wf(),
            self@.len() > 0,
        ensures
            t == self@.last(),
            t < self.node_count(),
    {
        let t = self.last.unwrap();
        proof {
            assert(self.ring@[self.ring@.len() - 1] < self.nodes@.len());
        }
        t
    }

    /// The current head: the tail's ring successor, reached through the
    /// wraparound link.
    fn head(&self) -> (h: usize)
        requires
            self.wf(),
            self@.len() > 0,
        ensures
            h == self@[0],
            h < self.node_count(),
    {
        let t = self.tail();
        let h = self.nodes[t].next;
        proof {
            let n = self.ring@.len() as int;
            assert((self.nodes@[self.ring@[n - 1] as int]).next == self.ring@[succ_index(n, n - 1)]);
            assert(self.ring@[0] < self.nodes@.len());
        }
        h
    }

    /// Returns the first element in the list without removing it.
    pub fn lpeek(&self) -> (r: Option<usize>)
        requires
            self.wf(),
        ensures
            self@.len() == 0 ==> r is None,
            self@.len() > 0 ==> r == Some(self@[0]),
    {
        if self.last.is_none() {
            None
        } else {
            Some(self.head())
        }
    }

    /// Returns the last element in the list without removing it.
    pub fn rpeek(&self) -> (r: Option<usize>)
        requires
            self.wf(),
        ensures
            self@.len() == 0 ==> r is None,
            self@.len() > 0 ==> r == Some(self@.last()),
    {
        if self.last.is_none() {
            None
        } else {
            Some(self.tail())
        }
    }

    /// Reads the handle in a node's link slot. For a member this is its ring
    /// successor; for a node outside the list the slot is stale and carries
    /// no meaning.
    pub fn next_of(&self, element: usize) -> (r: usize)
        requires
            self.wf(),
            element < self.node_count(),
        ensures
            r == self.slot(element),
            self@.contains(element) ==> r == ring_succ(self@, element),
    {
        let r = self.nodes[element].next;
        proof {
            if self@.contains(element) {
                let s = self.ring@;
                let i = s.index_of(element);
                assert(0 <= i < s.len() && s[i] == element);
                assert((self.nodes@[s[i] as int]).next == s[succ_index(s.len() as int, i)]);
            }
        }
        r
    }

    /// Makes `element` the sole member: its link names itself and the
    /// sentinel names it.
    fn push_initial_element(&mut self, element: usize)
        requires
            old(self).wf(),
            old(self)@.len() == 0,
            element < old(self).node_count(),
        ensures
            final(self).wf(),
            final(self)@ == seq![element],
            final(self).node_count() == old(self).node_count(),
    {
        self.nodes.set(element, Link { next: element });
        self.last = Some(element);
        proof {
            self.ring = Ghost(seq![element]);
            assert((self.nodes@[element as int]).next == element);
        }
    }

    /// Inserts `element` at the head: if the list is empty it becomes the
    /// sole, self-linked member; otherwise its link names the old head and
    /// the tail's link is rewired to name it, the sentinel unchanged.
    pub fn lpush(&mut self, element: usize)
        requires
            old(self).wf(),
            element < old(self).node_count(),
            !old(self)@.contains(element),
        ensures
            final(self).wf(),
            final(self)@ == seq![element] + old(self)@,
            final(self).node_count() == old(self).node_count(),
    {
        if self.last.is_none() {
            self.push_initial_element(element);
            proof {
                assert(seq![element] + old(self)@ =~= seq![element]);
            }
        } else {
            let ghost s = self.ring@;
            let ghost n = s.len() as int;
            let t = self.tail();
            let h = self.head();
            self.nodes.set(element, Link { next: h });
            self.nodes.set(t, Link { next: element });
            proof {
                self.ring = Ghost(seq![element] + s);
                let r = self.ring@;
                assert(s[n - 1] == t);
                assert(s.contains(t));
                assert forall|i: int, j: int|
                    0 <= i < r.len() && 0 <= j < r.len() && i != j implies r[i] != r[j] by {
                    if i != 0 && j != 0 {
                        assert(s[i - 1] != s[j - 1]);
                    } else if i == 0 {
                        assert(s[j - 1] != element);
                    } else {
                        assert(s[i - 1] != element);
                    }
                }
                assert forall|i: int| 0 <= i < r.len() implies (#[trigger] self.nodes@[
                    r[i] as int
                ]).next == r[succ_index(r.len() as int, i)] by {
                    if i == 0 {
                        assert(element != t);
                        assert(self.nodes@[element as int].next == h);
                    } else if i < n {
                        assert(r[i] == s[i - 1]);
                        assert(s[i - 1] != t && s[i - 1] != element);
                        assert(self.nodes@[s[i - 1] as int] == old(self).nodes@[s[i - 1] as int]);
                        assert((old(self).nodes@[s[i - 1] as int]).next == s[succ_index(n, i - 1)]);
                        assert(succ_index(n, i - 1) == i - 1 + 1);
                        assert(r[i + 1] == s[i]);
                    } else {
                        assert(i == n);
                        assert(r[i] == s[n - 1]);
                        assert(self.nodes@[t as int].next == element);
                        assert(succ_index(r.len() as int, i) == 0);
                    }
                }
                assert(r[r.len() - 1] == s[n - 1]);
            }
        }
    }

    /// Removes and returns the current head, or absent if the list is empty.
    /// The popped node's link is left stale. O(1): the head's predecessor is
    /// the tail, which the sentinel names directly.
    pub fn lpop(&mut self) -> (r: Option<usize>)
        requires
            old(self).wf(),
        ensures
            final(self).wf(),
            final(self).node_count() == old(self).node_count(),
            old(self)@.len() == 0 ==> r is None && final(self)@ == old(self)@,
            old(self)@.len() > 0 ==> r == Some(old(self)@[0]) && final(self)@ == old(
                self,
            )@.drop_first(),
            old(self)@.len() > 0 ==> final(self).slot(old(self)@[0]) == old(self).slot(
                old(self)@[0],
            ),
    {
        if self.last.is_none() {
            None
        } else {
            let ghost s = self.ring@;
            let ghost n = s.len() as int;
            let t = self.tail();
            let h = self.head();
            if t == h {
                proof {
                    if n > 1 {
                        assert(s[0] != s[n - 1]);
                    }
                    self.ring = Ghost(Seq::empty());
                    assert(self.ring@ =~= s.drop_first());
                }
                self.last = None;
                Some(h)
            } else {
                proof {
                    assert(n > 1) by {
                        if n == 1 {
                            assert(s[0] == s[n - 1]);
                        }
                    }
                }
                let h_next = self.nodes[h].next;
                proof {
                    assert((self.nodes@[s[0] as int]).next == s[succ_index(n, 0)]);
                    assert(h_next == s[1]);
                }
                self.nodes.set(t, Link { next: h_next });
                proof {
                    self.ring = Ghost(s.drop_first());
                    let r = self.ring@;
                    assert(r.len() == n - 1);
                    assert forall|i: int, j: int|
                        0 <= i < r.len() && 0 <= j < r.len() && i != j implies r[i] != r[j] by {
                        assert(s[i + 1] != s[j + 1]);
                    }
                    assert forall|i: int| 0 <= i < r.len() implies (#[trigger] self.nodes@[
                        r[i] as int
                    ]).next == r[succ_index(r.len() as int, i)] by {
                        assert(r[i] == s[i + 1]);
                        if i < n - 2 {
                            assert(s[i + 1] != s[n - 1]);
                            assert(self.nodes@[s[i + 1] as int] == old(self).nodes@[s[
                                i + 1
                            ] as int]);
                            assert((old(self).nodes@[s[i + 1] as int]).next == s[succ_index(
                                n,
                                i + 1,
                            )]);
                            assert(succ_index(n, i + 1) == i + 2);
                            assert(r[i + 1] == s[i + 2]);
                        } else {
                            assert(i == n - 2);
                            assert(r[i] == t);
                            assert(self.nodes@[t as int].next == h_next);
                            assert(succ_index(r.len() as int, i) == 0);
                            assert(r[0] == s[1]);
                        }
                    }
                    assert(r[r.len() - 1] == s[n - 1]);
                }
                Some(h)
            }
        }
    }

    /// Rotates the list: the first member becomes the last, the second
    /// becomes the first. Only the sentinel moves; no member's link changes.
    pub fn lpoprpush(&mut self)
        requires
            old(self).wf(),
        ensures
            final(self).wf(),
            final(self)@ == rotated(old(self)@),
            final(self).node_count() == old(self).node_count(),
    {
        if !self.last.is_none() {
            let h = self.head();
            self.last = Some(h);
            proof {
                lemma_rotation_keeps_ring(self.nodes@, self.ring@);
                self.ring = Ghost(rotated(self.ring@));
            }
        }
    }

    /// Inserts `element` at the tail: it is linked in just ahead of the old
    /// head (as in `lpush`), then the sentinel is moved to name it, which
    /// makes it the tail while every prior member keeps its order.
    pub fn rpush(&mut self, element: usize)
        requires
            old(self).wf(),
            element < old(self).node_count(),
            !old(self)@.contains(element),
        ensures
            final(self).wf(),
            final(self)@ == old(self)@.push(element),
            final(self).node_count() == old(self).node_count(),
    {
        self.lpush(element);
        self.last = Some(element);
        proof {
            lemma_rotation_keeps_ring(self.nodes@, self.ring@);
            self.ring = Ghost(rotated(self.ring@));
            assert(self.ring@ =~= old(self)@.push(element));
        }
    }

    /// Scans the ring from the tail for the member whose link names
    /// `element`: its ring predecessor. Absent if the list is empty or
    /// `element` is not a member. O(n): no backward link exists.
    fn find_previous(&self, element: usize) -> (r: Option<usize>)
        requires
            self.wf(),
        ensures
            match r {
                Some(p) => self@.contains(element) && p == ring_pred(self@, element),
                None => !self@.contains(element),
            },
    {
        let t = match self.last {
            None => {
                return None;
            },
            Some(t) => t,
        };
        let ghost s = self.ring@;
        let ghost n = s.len() as int;
        let mut pos = t;
        let ghost mut k: int = 0;
        loop
            invariant
                self.wf(),
                s == self@,
                n == s.len() as int,
                n > 0,
                t == s[n - 1],
                0 <= k < n,
                pos == if k == 0 {
                    s[n - 1]
                } else {
                    s[k - 1]
                },
                forall|j: int| 0 <= j < k ==> s[j] != element,
            decreases n - k,
        {
            let ghost pi: int = if k == 0 {
                n - 1
            } else {
                k - 1
            };
            proof {
                assert(s[pi] < self.nodes@.len());
                assert((self.nodes@[s[pi] as int]).next == s[succ_index(n, pi)]);
                assert(succ_index(n, pi) == if k == 0 {
                    0int
                } else {
                    k
                });
            }
            let next = self.nodes[pos].next;
            if next == element {
                proof {
                    let ghost m: int = if k == 0 {
                        0int
                    } else {
                        k
                    };
                    assert(s[m] == element);
                    lemma_index_of_unique(s, m);
                }
                return Some(pos);
            }
            if next == t {
                proof {
                    let ghost m: int = if k == 0 {
                        0int
                    } else {
                        k
                    };
                    assert(s[m] == s[n - 1]);
                    assert(m == n - 1);
                    assert forall|j: int| 0 <= j < s.len() implies s[j] != element by {
                        if j < n - 1 {
                        } else {
                            assert(s[n - 1] == next);
                        }
                    }
                }
                return None;
            }
            pos = next;
            proof {
                let ghost m: int = if k == 0 {
                    0int
                } else {
                    k
                };
                assert(s[m] != s[n - 1]);
                assert(m != n - 1);
                k = k + 1;
            }
        }
    }

    /// Confirms `element`'s membership by scanning from the tail and returns
    /// its ring successor, or absent if it is not a member. O(n).
    pub fn find(&self, element: usize) -> (r: Option<usize>)
        requires
            self.wf(),
        ensures
            self@.contains(element) ==> r == Some(ring_succ(self@, element)),
            !self@.contains(element) ==> r is None,
    {
        match self.find_previous(element) {
            None => None,
            Some(_) => {
                proof {
                    let s = self.ring@;
                    let i = s.index_of(element);
                    assert(0 <= i < s.len() && s[i] == element);
                    assert(s[i] < self.nodes@.len());
                    assert((self.nodes@[s[i] as int]).next == s[succ_index(s.len() as int, i)]);
                }
                Some(self.nodes[element].next)
            },
        }
    }

    /// Removes and returns `element`. The current head is unlinked in O(1)
    /// as `lpop` does; any other member takes an O(n) scan from the tail for
    /// its predecessor, whose link is rewired past it. Absent if the list is
    /// empty or `element` is not a member; the state is then unchanged.
    pub fn remove(&mut self, element: usize) -> (r: Option<usize>)
        requires
            old(self).wf(),
        ensures
            final(self).wf(),
            final(self).node_count() == old(self).node_count(),
            old(self)@.contains(element) ==> r == Some(element) && final(self)@ == old(
                self,
            )@.remove(old(self)@.index_of(element)) && final(self).slot(element) == old(self).slot(
                element,
            ),
            !old(self)@.contains(element) ==> r is None && final(self)@ == old(self)@,
    {
        if self.last.is_none() {
            return None;
        }
        let h = self.head();
        if h == element {
            proof {
                lemma_index_of_unique(self.ring@, 0);
                assert(self.ring@.remove(0) =~= self.ring@.drop_first());
            }
            return self.lpop();
        }
        let t = self.tail();
        match self.find_previous(element) {
            None => None,
            Some(p) => {
                let ghost s = self.ring@;
                let ghost n = s.len() as int;
                let ghost i = s.index_of(element);
                proof {
                    assert(0 <= i < n && s[i] == element);
                    assert(i != 0) by {
                        if i == 0 {
                            assert(s[0] == element);
                        }
                    }
                    assert(p == s[i - 1]);
                    assert(s[i - 1] < self.nodes@.len());
                    assert(s[i] < self.nodes@.len());
                    assert((self.nodes@[s[i] as int]).next == s[succ_index(n, i)]);
                }
                let succ = self.nodes[element].next;
                self.nodes.set(p, Link { next: succ });
                if element == t {
                    proof {
                        assert(s[i] == s[n - 1]);
                        assert(i == n - 1);
                    }
                    self.last = Some(p);
                }
                proof {
                    if element != t && i == n - 1 {
                        assert(s[i] == t);
                    }
                    self.ring = Ghost(s.remove(i));
                    let r = self.ring@;
                    assert(r.len() == n - 1);
                    assert forall|a: int| 0 <= a < r.len() implies r[a] == s[
                        if a < i {
                            a
                        } else {
                            a + 1
                        }
                    ] by {}
                    assert forall|a: int, b: int|
                        0 <= a < r.len() && 0 <= b < r.len() && a != b implies r[a] != r[b] by {
                        let oa: int = if a < i {
                            a
                        } else {
                            a + 1
                        };
                        let ob: int = if b < i {
                            b
                        } else {
                            b + 1
                        };
                        assert(s[oa] != s[ob]);
                    }
                    assert forall|a: int| 0 <= a < r.len() implies (#[trigger] r[a])
                        < self.nodes@.len() by {
                        let oa: int = if a < i {
                            a
                        } else {
                            a + 1
                        };
                        assert(r[a] == s[oa]);
                    }
                    assert forall|a: int| 0 <= a < r.len() implies (#[trigger] self.nodes@[
                        r[a] as int
                    ]).next == r[succ_index(r.len() as int, a)] by {
                        if a == i - 1 {
                            assert(r[a] == p);
                            assert(self.nodes@[p as int].next == succ);
                            if i < n - 1 {
                                assert(succ == s[i + 1]);
                                assert(succ_index(n - 1, i - 1) == i);
                                assert(r[i] == s[i + 1]);
                            } else {
                                assert(succ == s[0]);
                                assert(succ_index(n - 1, i - 1) == 0);
                                assert(r[0] == s[0]);
                            }
                        } else {
                            let oa: int = if a < i {
                                a
                            } else {
                                a + 1
                            };
                            assert(r[a] == s[oa]);
                            assert(s[oa] != s[i - 1]);
                            assert(self.nodes@[s[oa] as int] == old(self).nodes@[s[oa] as int]);
                            assert((old(self).nodes@[s[oa] as int]).next == s[succ_index(n, oa)]);
                            if a < i - 1 {
                                assert(succ_index(n, oa) == a + 1);
                                assert(r[a + 1] == s[a + 1]);
                                assert(succ_index(n - 1, a) == a + 1);
                            } else {
                                assert(a >= i && oa == a + 1);
                                if a + 1 < n - 1 {
                                    assert(succ_index(n, oa) == a + 2);
                                    assert(r[a + 1] == s[a + 2]);
                                    assert(succ_index(n - 1, a) == a + 1);
                                } else {
                                    assert(a == n - 2);
                                    assert(succ_index(n, oa) == 0);
                                    assert(r[0] == s[0]);
                                    assert(succ_index(n - 1, a) == 0);
                                }
                            }
                        }
                    }
                    if i == n - 1 {
                        assert(r[r.len() - 1] == s[n - 2]);
                    } else {
                        assert(r[r.len() - 1] == s[n - 1]);
                    }
                }
                Some(element)
            },
        }
    }

    /// Removes and returns the current tail, or absent if the list is empty.
    /// Delegates to the general `remove`, so it costs an O(n) scan for the
    /// tail's predecessor: the deliberate price of keeping only forward
    /// links.
    pub fn rpop(&mut self) -> (r: Option<usize>)
        requires
            old(self).wf(),
        ensures
            final(self).wf(),
            final(self).node_count() == old(self).node_count(),
            old(self)@.len() == 0 ==> r is None && final(self)@ == old(self)@,
            old(self)@.len() > 0 ==> r == Some(old(self)@.last()) && final(self)@ == old(
                self,
            )@.drop_last(),
            old(self)@.len() > 0 ==> final(self).slot(old(self)@.last()) == old(self).slot(
                old(self)@.last(),
            ),
    {
        if self.last.is_none() {
            return None;
        }
        let t = self.tail();
        proof {
            let s = self.ring@;
            assert(s[s.len() - 1] == t);
            assert(s.contains(t));
            lemma_index_of_unique(s, s.len() - 1);
            assert(s.remove(s.len() - 1) =~= s.drop_last());
        }
        self.remove(t)
    }
}

impl View for List {
    type V = Seq<usize>;

    /// The members of the list, as handles in head-to-tail order.
    closed spec fn view(&self) -> Seq<usize> {
        self.ring@
    }
}

} // verus!
