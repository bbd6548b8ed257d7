//! An ordered, duplicate-free container: a skip list whose nodes live in an
//! arena and link to each other by index.
//!
//! Node 0 is the head: a sentinel whose element is never looked at and whose
//! links start every level. Every other node holds one element and as many
//! forward links as it is high.

use vstd::prelude::*;
use rand::Rng;
use crate::order::{
    Comparison, Ordered, ascending, lemma_lower_count_is, lower_count, ordered_insert,
};

verus! {

/// One node of a skip list: an element and one forward link for each level
/// that the node takes part in.
pub struct Node<T> {
    element: T,
    next: Vec<Option<usize>>,
}

impl<T> Node<T> {
    /// The element of the node.
    pub closed spec fn element(&self) -> T {
        self.element
    }

    /// The forward links of the node, lowest level first.
    pub closed spec fn links(&self) -> Seq<Option<usize>> {
        self.next@
    }

    /// A node that holds `elt`, with `height` links that lead nowhere yet.
    pub fn new(elt: T, height: u16) -> (node: Self)
        ensures
            node.element() == elt,
            node.links().len() == height,
            forall|l: int| 0 <= l < height ==> node.links()[l] is None,
    {
        let mut next: Vec<Option<usize>> = Vec::new();
        let mut l: u16 = 0;
        while l < height
            invariant
                l <= height,
                next@.len() == l,
                forall|k: int| 0 <= k < l ==> next@[k] is None,
            decreases height - l,
        {
            next.push(None);
            l += 1;
        }
        Node { element: elt, next }
    }

    /// Takes the element out of the node.
    pub fn into_element(self: Box<Self>) -> (e: T)
        ensures
            e == self.element(),
    {
        self.element
    }
}

impl<T: Default> Node<T> {
    /// The head of a list whose nodes are at most `height` high. Its element
    /// is a placeholder.
    pub fn new_head(height: u16) -> (node: Self)
        ensures
            node.links().len() == height,
            forall|l: int| 0 <= l < height ==> node.links()[l] is None,
    {
        Node::new(T::default(), height)
    }
}

/// A skip list: it keeps its elements in ascending order and holds none twice.
pub struct SkipList<T> {
    nodes: Vec<Node<T>>,
    k_max_height: u16,
    max_height: u16,
    branching_factor: u16,
    len: usize,
    /// The node at each position of the order; the head is at position 0.
    order: Ghost<Seq<int>>,
    /// The position of each node in the order.
    rank: Ghost<Seq<int>>,
}

impl<T: Ordered> View for SkipList<T> {
    type V = Seq<T::V>;

    /// The elements in ascending order.
    closed spec fn view(&self) -> Seq<T::V> {
        Seq::new((self.nodes@.len() - 1) as nat, |i: int| self.key(self.order@[i + 1]))
    }
}

impl<T: Ordered> SkipList<T> {
    /// The number of nodes, the head among them.
    spec fn size(&self) -> int {
        self.nodes@.len() as int
    }

    /// The number of levels that node `n` takes part in.
    spec fn height(&self, n: int) -> int {
        self.nodes@[n].next@.len() as int
    }

    /// The node that follows node `n` at level `l`.
    spec fn link(&self, n: int, l: int) -> Option<usize> {
        self.nodes@[n].next@[l]
    }

    /// What the element of node `n` holds.
    spec fn key(&self, n: int) -> T::V {
        self.nodes@[n].element@
    }

    /// The position of the node that follows node `n` at level `l`; the
    /// number of nodes where none follows.
    spec fn reach(&self, n: int, l: int) -> int {
        match self.link(n, l) {
            Some(m) => self.rank@[m as int],
            None => self.size(),
        }
    }

    /// `order` and `rank` are inverse to each other, and the head comes first.
    spec fn bijective(&self) -> bool {
        &&& self.order@.len() == self.size()
        &&& self.rank@.len() == self.size()
        &&& self.size() >= 1
        &&& self.order@[0] == 0
        &&& forall|p: int|
            0 <= p < self.size() ==> 0 <= #[trigger] self.order@[p] < self.size()
                && self.rank@[self.order@[p]] == p
        &&& forall|n: int|
            0 <= n < self.size() ==> 0 <= #[trigger] self.rank@[n] < self.size()
                && self.order@[self.rank@[n]] == n
    }

    /// The elements ascend along the order.
    spec fn sorted(&self) -> bool {
        forall|p: int, q: int|
            1 <= p < q < self.size() ==> T::before(
                #[trigger] self.key(self.order@[p]),
                #[trigger] self.key(self.order@[q]),
            )
    }

    /// The head takes part in every level, every other node in at least one,
    /// and `max_height` is the greatest height of a node that is not the head.
    spec fn heights_ok(&self) -> bool {
        &&& 1 <= self.max_height <= self.k_max_height
        &&& self.height(0) == self.k_max_height
        &&& forall|n: int| 1 <= n < self.size() ==> 1 <= #[trigger] self.height(n) <= self.max_height
        &&& (self.max_height == 1 || exists|n: int|
            1 <= n < self.size() && #[trigger] self.height(n) == self.max_height)
    }

    /// The link of node `n` at level `l` leads to the next node in the order
    /// that takes part in level `l`, and nowhere where there is none.
    spec fn link_ok(&self, n: int, l: int) -> bool {
        &&& (self.link(n, l) matches Some(m) ==> 0 < m < self.size() && self.height(m as int) > l)
        &&& self.rank@[n] < self.reach(n, l)
        &&& forall|p: int|
            self.rank@[n] < p < self.reach(n, l) ==> #[trigger] self.height(self.order@[p]) <= l
    }

    /// Every link of every node is as `link_ok` asks.
    spec fn links_ok(&self) -> bool {
        forall|n: int, l: int|
            0 <= n < self.size() && 0 <= l < self.height(n) ==> #[trigger] self.link_ok(n, l)
    }

    /// The invariant of the list: at each level the links run through the
    /// nodes of that level in strictly ascending order of their elements.
    pub closed spec fn wf(&self) -> bool {
        &&& self.bijective()
        &&& self.sorted()
        &&& self.heights_ok()
        &&& self.links_ok()
        &&& self.len == self.size() - 1
    }

    /// The greatest height that a node may have.
    pub closed spec fn height_limit(&self) -> u16 {
        self.k_max_height
    }

    /// The greatest height of a node in the list; 1 while it is empty.
    pub closed spec fn top_height(&self) -> u16 {
        self.max_height
    }

    /// One in `branching` nodes of a level also takes part in the next.
    pub closed spec fn branching(&self) -> u16 {
        self.branching_factor
    }

    /// The elements of a list are ascending, and its greatest height lies
    /// between 1 and the limit.
    pub proof fn lemma_view_ascending(&self)
        requires
            self.wf(),
        ensures
            ascending::<T>(self@),
            self.top_height() <= self.height_limit(),
            1 <= self.top_height(),
    {
        assert forall|i: int, j: int| 0 <= i < j < self@.len() implies T::before(
            #[trigger] self@[i],
            #[trigger] self@[j],
        ) by {
            assert(T::before(self.key(self.order@[i + 1]), self.key(self.order@[j + 1])));
        }
    }

    /// At the lowest level a link leads to the very next node of the order.
    proof fn lemma_ground_link(&self, n: int)
        requires
            self.wf(),
            0 <= n < self.size(),
        ensures
            self.height(n) > 0,
            self.reach(n, 0) == if self.rank@[n] + 1 < self.size() {
                self.rank@[n] + 1
            } else {
                self.size()
            },
            self.link(n, 0) is Some <==> self.rank@[n] + 1 < self.size(),
            self.link(n, 0) matches Some(m) ==> m == self.order@[self.rank@[n] + 1] && 0 < m
                < self.size(),
    {
        assert(self.rank@[n] >= 0);
        if n >= 1 {
            assert(self.height(n) >= 1);
        }
        assert(self.link_ok(n, 0));
        let p = self.rank@[n] + 1;
        if p < self.size() {
            let k = self.order@[p];
            assert(self.rank@[k] == p);
            if k == 0 {
                assert(self.rank@[self.order@[0]] == 0);
            }
            assert(self.height(k) >= 1);
            if self.reach(n, 0) > p {
                assert(self.height(self.order@[p]) <= 0);
            }
        }
        match self.link(n, 0) {
            Some(m) => {
                assert(self.order@[self.rank@[m as int]] == m);
            },
            None => {},
        }
    }
}

impl<T: Ordered + Default> SkipList<T> {
    /// An empty list whose nodes will be at most `max_height` high, and in
    /// which one in `branching_factor` nodes of a level reaches the next.
    pub fn new(max_height: u16, branching_factor: u16) -> (list: SkipList<T>)
        requires
            max_height >= 1,
        ensures
            list.wf(),
            list@ == Seq::<T::V>::empty(),
            list.height_limit() == max_height,
            list.top_height() == 1,
            list.branching() == branching_factor,
    {
        let head: Node<T> = Node::new_head(max_height);
        let mut nodes: Vec<Node<T>> = Vec::new();
        nodes.push(head);
        let ghost start = seq![0int];
        let list = SkipList {
            nodes,
            k_max_height: max_height,
            max_height: 1,
            branching_factor,
            len: 0,
            order: Ghost(start),
            rank: Ghost(start),
        };
        proof {
            assert forall|n: int, l: int|
                0 <= n < list.size() && 0 <= l < list.height(n) implies #[trigger] list.link_ok(
                n,
                l,
            ) by {
                assert(list.link(n, l) is None);
            }
            assert(list@ =~= Seq::<T::V>::empty());
        }
        list
    }
}

impl<T: Ordered> SkipList<T> {
    /// Whether node `u` is the last node of level `l` whose element comes
    /// before `e`: the head where none does.
    spec fn stops_before(&self, u: int, l: int, e: T::V) -> bool {
        &&& 0 <= u < self.size()
        &&& self.height(u) > l
        &&& (u != 0 ==> T::before(self.key(u), e))
        &&& (self.link(u, l) matches Some(m) ==> T::before(e, self.key(m as int)))
    }

    /// Whether `update` names, for each level, the last node before `e`.
    spec fn precede(&self, update: Seq<usize>, e: T::V) -> bool {
        &&& update.len() == self.k_max_height
        &&& forall|l: int|
            0 <= l < self.k_max_height ==> #[trigger] self.stops_before(update[l] as int, l, e)
    }

    /// The last node of the lowest level before `e` parts the order in two:
    /// up to it everything comes before `e`, behind it `e` comes before
    /// everything.
    proof fn lemma_split(&self, u: int, e: T::V)
        requires
            self.wf(),
            self.stops_before(u, 0, e),
        ensures
            forall|p: int|
                1 <= p <= self.rank@[u] ==> T::before(#[trigger] self.key(self.order@[p]), e),
            forall|p: int|
                self.rank@[u] < p < self.size() ==> T::before(
                    e,
                    #[trigger] self.key(self.order@[p]),
                ),
            !self@.contains(e),
            lower_count::<T>(self@, e) == self.rank@[u],
    {
        let r = self.rank@[u];
        assert(self.order@[r] == u);
        assert(self.rank@[self.order@[0]] == 0);
        self.lemma_ground_link(u);
        assert forall|p: int| 1 <= p <= r implies T::before(
            #[trigger] self.key(self.order@[p]),
            e,
        ) by {
            if p < r {
                assert(T::before(self.key(self.order@[p]), self.key(self.order@[r])));
                T::before_transitive(self.key(self.order@[p]), self.key(u), e);
            }
        }
        assert forall|p: int| r < p < self.size() implies T::before(
            e,
            #[trigger] self.key(self.order@[p]),
        ) by {
            let m = self.order@[r + 1];
            assert(self.link(u, 0) == Some(m as usize));
            if p > r + 1 {
                assert(T::before(self.key(self.order@[r + 1]), self.key(self.order@[p])));
                T::before_transitive(e, self.key(m), self.key(self.order@[p]));
            }
        }
        assert forall|i: int| 0 <= i < self@.len() implies self@[i] != e by {
            T::before_irreflexive(e);
            assert(self@[i] == self.key(self.order@[i + 1]));
        }
        assert forall|i: int| 0 <= i < r implies T::before(#[trigger] self@[i], e) by {
            assert(self@[i] == self.key(self.order@[i + 1]));
        }
        assert forall|i: int| r <= i < self@.len() implies !T::before(#[trigger] self@[i], e) by {
            assert(self@[i] == self.key(self.order@[i + 1]));
            if T::before(self@[i], e) {
                T::before_transitive(e, self@[i], e);
                T::before_irreflexive(e);
            }
        }
        lemma_lower_count_is::<T>(self@, e, r);
    }

    /// Above the highest node only the head takes part, and its links lead
    /// nowhere.
    proof fn lemma_head_above(&self, l: int, e: T::V)
        requires
            self.wf(),
            self.max_height <= l < self.k_max_height,
        ensures
            self.stops_before(0, l, e),
            self.link(0, l) is None,
    {
        assert(self.link_ok(0, l));
    }

    /// Walks down the levels towards `elt`. Gives, for each level, the last
    /// node before `elt`, and whether the list holds `elt`; where it does, the
    /// walk ends early and the nodes are of no use.
    fn find(&self, elt: &T) -> (r: (Vec<usize>, bool))
        requires
            self.wf(),
        ensures
            r.1 <==> self@.contains(elt@),
            !r.1 ==> self.precede(r.0@, elt@),
    {
        let ghost e = elt@;
        let mut update: Vec<usize> = Vec::new();
        let mut k: u16 = 0;
        while k < self.k_max_height
            invariant
                k <= self.k_max_height,
                update@.len() == k,
                forall|l: int| 0 <= l < k ==> update@[l] == 0,
            decreases self.k_max_height - k,
        {
            update.push(0);
            k += 1;
        }
        let mut x: usize = 0;
        let mut i: u16 = self.max_height;
        proof {
            assert forall|l: int| i <= l < self.k_max_height implies #[trigger] self.stops_before(
                update@[l] as int,
                l,
                e,
            ) by {
                self.lemma_head_above(l, e);
            }
        }
        while i > 0
            invariant
                self.wf(),
                e == elt@,
                i <= self.max_height,
                update@.len() == self.k_max_height,
                0 <= x < self.size(),
                self.height(x as int) >= i,
                x != 0 ==> T::before(self.key(x as int), e),
                forall|l: int|
                    i <= l < self.k_max_height ==> #[trigger] self.stops_before(
                        update@[l] as int,
                        l,
                        e,
                    ),
            decreases i,
        {
            i -= 1;
            let mut arrived = false;
            while !arrived
                invariant
                    self.wf(),
                    e == elt@,
                    i < self.max_height,
                    0 <= x < self.size(),
                    self.height(x as int) > i,
                    x != 0 ==> T::before(self.key(x as int), e),
                    arrived ==> self.stops_before(x as int, i as int, e),
                decreases self.size() - self.rank@[x as int] + (if arrived { 0int } else { 1int }),
            {
                assert(self.link_ok(x as int, i as int));
                match self.nodes[x].next[i as usize] {
                    None => {
                        arrived = true;
                    },
                    Some(m) => {
                        match elt.compare(&self.nodes[m].element) {
                            Comparison::Less => {
                                arrived = true;
                            },
                            Comparison::Equal => {
                                proof {
                                    let p = self.rank@[m as int];
                                    assert(self.order@[p] == m);
                                    assert(self.rank@[self.order@[0]] == 0);
                                    assert(self@[p - 1] == e);
                                }
                                return (update, true);
                            },
                            Comparison::Greater => {
                                x = m;
                            },
                        }
                    },
                }
            }
            let ghost before = update@;
            update[i as usize] = x;
            assert forall|l: int| i <= l < self.k_max_height implies #[trigger] self.stops_before(
                update@[l] as int,
                l,
                e,
            ) by {
                if l > i {
                    assert(self.stops_before(before[l] as int, l, e));
                }
            }
        }
        proof {
            assert(self.stops_before(update@[0] as int, 0, e));
            self.lemma_split(update@[0] as int, e);
        }
        (update, false)
    }

    /// The number of elements.
    pub fn len(&self) -> (n: usize)
        requires
            self.wf(),
        ensures
            n == self@.len(),
    {
        self.len
    }

    /// Whether the list holds an element equal to `elt`.
    pub fn contains(&self, elt: &T) -> (b: bool)
        requires
            self.wf(),
        ensures
            b == self@.contains(elt@),
    {
        let (_, found) = self.find(elt);
        found
    }

    /// A traversal of the elements in ascending order, from the first on.
    pub fn iter(&self) -> (it: Iter<'_, T>)
        requires
            self.wf(),
        ensures
            it.wf(),
            it.list() == self,
            it.position() == 0,
    {
        proof {
            assert(self.rank@[self.order@[0]] == 0);
        }
        Iter { list: self, head: 0, len: self.len }
    }
}

/// Where a position of the order goes when a node is put in at `pos`.
spec fn shifted(pos: int, p: int) -> int {
    if p >= pos {
        p + 1
    } else {
        p
    }
}

impl<T: Ordered> SkipList<T> {
    /// The nodes of `self` are those of `pre` and one more, which holds `e`
    /// and is `h` high. It stands, at the levels below `done`, behind the
    /// nodes of `update`; above, nothing leads to it yet.
    spec fn relinked(&self, pre: &SkipList<T>, update: Seq<usize>, done: int, h: int, e: T::V) -> bool {
        let fresh = pre.size();
        &&& self.size() == fresh + 1
        &&& self.key(fresh) == e
        &&& self.height(fresh) == h
        &&& forall|l: int| 0 <= l < h ==> #[trigger] self.link(fresh, l) == pre.link(update[l] as int, l)
        &&& forall|n: int| 0 <= n < fresh ==> #[trigger] self.key(n) == pre.key(n)
        &&& forall|n: int| 0 <= n < fresh ==> #[trigger] self.height(n) == pre.height(n)
        &&& forall|n: int, l: int|
            0 <= n < fresh && 0 <= l < pre.height(n) ==> #[trigger] self.link(n, l) == if l < done
                && update[l] == n {
                Some(fresh as usize)
            } else {
                pre.link(n, l)
            }
    }

    /// `self` is `pre` after a node that holds `e` and is `h` high was put in
    /// behind the nodes of `update`.
    spec fn spliced_from(&self, pre: &SkipList<T>, update: Seq<usize>, h: int, e: T::V) -> bool {
        let fresh = pre.size();
        let pos = pre.rank@[update[0] as int] + 1;
        &&& self.relinked(pre, update, h, h, e)
        &&& self.k_max_height == pre.k_max_height
        &&& self.max_height == if h > pre.max_height {
            h
        } else {
            pre.max_height as int
        }
        &&& self.len == pre.len + 1
        &&& self.order@ == pre.order@.insert(pos, fresh)
        &&& self.rank@ == Seq::new(
            (fresh + 1) as nat,
            |n: int|
                if n == fresh {
                    pos
                } else {
                    shifted(pos, pre.rank@[n])
                },
        )
    }

    /// The node of `update` at level `l` stands before the place of `e`, and
    /// the node that its link leads to stands behind it.
    proof fn lemma_update_spans(&self, update: Seq<usize>, e: T::V, l: int)
        requires
            self.wf(),
            self.precede(update, e),
            0 <= l < self.k_max_height,
        ensures
            0 <= self.rank@[update[0] as int] < self.size(),
            0 <= self.rank@[update[l] as int] <= self.rank@[update[0] as int],
            self.rank@[update[0] as int] < self.reach(update[l] as int, l) <= self.size(),
            self.link_ok(update[l] as int, l),
    {
        let u0 = update[0] as int;
        let u = update[l] as int;
        assert(self.stops_before(u0, 0, e));
        assert(self.stops_before(u, l, e));
        self.lemma_split(u0, e);
        assert(self.link_ok(u, l));
        assert(self.order@[self.rank@[u]] == u);
        assert(self.rank@[self.order@[0]] == 0);
        T::before_irreflexive(e);
        if u != 0 && self.rank@[u] > self.rank@[u0] {
            T::before_transitive(e, self.key(u), e);
        }
        match self.link(u, l) {
            Some(m) => {
                assert(self.order@[self.rank@[m as int]] == m);
                if self.rank@[m as int] <= self.rank@[u0] {
                    T::before_transitive(e, self.key(m as int), e);
                }
            },
            None => {},
        }
    }

    proof fn lemma_splice_bijective(&self, pre: &SkipList<T>, update: Seq<usize>, h: int, e: T::V)
        requires
            pre.wf(),
            pre.precede(update, e),
            1 <= h <= pre.k_max_height,
            self.spliced_from(pre, update, h, e),
        ensures
            self.bijective(),
            forall|p: int|
                0 <= p < pre.size() ==> #[trigger] self.order@[shifted(
                    pre.rank@[update[0] as int] + 1,
                    p,
                )] == pre.order@[p],
            self.order@[pre.rank@[update[0] as int] + 1] == pre.size(),
            forall|n: int|
                0 <= n < pre.size() ==> #[trigger] self.rank@[n] == shifted(
                    pre.rank@[update[0] as int] + 1,
                    pre.rank@[n],
                ),
            self.rank@[pre.size()] == pre.rank@[update[0] as int] + 1,
    {
        pre.lemma_update_spans(update, e, 0);
        let pos = pre.rank@[update[0] as int] + 1;
        assert forall|p: int| 0 <= p < self.size() implies 0 <= #[trigger] self.order@[p]
            < self.size() && self.rank@[self.order@[p]] == p by {
            if p < pos {
                assert(self.order@[p] == pre.order@[p]);
            } else if p > pos {
                assert(self.order@[p] == pre.order@[p - 1]);
            }
        }
        assert forall|n: int| 0 <= n < self.size() implies 0 <= #[trigger] self.rank@[n]
            < self.size() && self.order@[self.rank@[n]] == n by {
            if n < pre.size() {
                assert(pre.order@[pre.rank@[n]] == n);
            }
        }
    }

    proof fn lemma_splice_sorted(&self, pre: &SkipList<T>, update: Seq<usize>, h: int, e: T::V)
        requires
            pre.wf(),
            pre.precede(update, e),
            1 <= h <= pre.k_max_height,
            self.spliced_from(pre, update, h, e),
        ensures
            self.sorted(),
            self@ == ordered_insert::<T>(pre@, e),
    {
        pre.lemma_update_spans(update, e, 0);
        let u0 = update[0] as int;
        let pos = pre.rank@[u0] + 1;
        assert(pre.stops_before(u0, 0, e));
        pre.lemma_split(u0, e);
        assert forall|p: int| 1 <= p < self.size() implies #[trigger] self.key(self.order@[p]) == (
        if p < pos {
            pre.key(pre.order@[p])
        } else if p == pos {
            e
        } else {
            pre.key(pre.order@[p - 1])
        }) by {
            if p < pos {
                assert(self.order@[p] == pre.order@[p]);
                assert(0 <= pre.order@[p] < pre.size());
            } else if p > pos {
                assert(self.order@[p] == pre.order@[p - 1]);
                assert(0 <= pre.order@[p - 1] < pre.size());
            }
        }
        assert forall|p: int, q: int| 1 <= p < q < self.size() implies T::before(
            #[trigger] self.key(self.order@[p]),
            #[trigger] self.key(self.order@[q]),
        ) by {
            if q < pos {
                assert(T::before(pre.key(pre.order@[p]), pre.key(pre.order@[q])));
            } else if q == pos {
                assert(T::before(pre.key(pre.order@[p]), e));
            } else if p == pos {
                assert(T::before(e, pre.key(pre.order@[q - 1])));
            } else if p < pos {
                assert(T::before(pre.key(pre.order@[p]), pre.key(pre.order@[q - 1])));
            } else {
                assert(T::before(pre.key(pre.order@[p - 1]), pre.key(pre.order@[q - 1])));
            }
        }
        assert forall|i: int| 0 <= i < self@.len() implies self@[i] == pre@.insert(pos - 1, e)[i] by {
            assert(self@[i] == self.key(self.order@[i + 1]));
            if i < pos - 1 {
                assert(pre@[i] == pre.key(pre.order@[i + 1]));
            } else if i > pos - 1 {
                assert(pre@[i - 1] == pre.key(pre.order@[i]));
            }
        }
        assert(self@ =~= pre@.insert(pos - 1, e));
    }

    proof fn lemma_splice_heights(&self, pre: &SkipList<T>, update: Seq<usize>, h: int, e: T::V)
        requires
            pre.wf(),
            pre.precede(update, e),
            1 <= h <= pre.k_max_height,
            self.spliced_from(pre, update, h, e),
        ensures
            self.heights_ok(),
    {
        let fresh = pre.size();
        assert(self.height(0) == pre.height(0));
        assert forall|n: int| 1 <= n < self.size() implies 1 <= #[trigger] self.height(n)
            <= self.max_height by {
            if n < fresh {
                assert(self.height(n) == pre.height(n));
                assert(1 <= pre.height(n) <= pre.max_height);
            }
        }
        if h >= pre.max_height {
            assert(self.height(fresh) == self.max_height);
        } else if pre.max_height != 1 {
            let n = choose|n: int| 1 <= n < pre.size() && #[trigger] pre.height(n) == pre.max_height;
            assert(self.height(n) == pre.height(n));
        }
    }

    proof fn lemma_splice_links(&self, pre: &SkipList<T>, update: Seq<usize>, h: int, e: T::V)
        requires
            pre.wf(),
            pre.precede(update, e),
            1 <= h <= pre.k_max_height,
            self.spliced_from(pre, update, h, e),
        ensures
            self.links_ok(),
    {
        let fresh = pre.size();
        let pos = pre.rank@[update[0] as int] + 1;
        self.lemma_splice_bijective(pre, update, h, e);
        pre.lemma_update_spans(update, e, 0);
        assert forall|n: int, l: int|
            0 <= n < self.size() && 0 <= l < self.height(n) implies #[trigger] self.link_ok(
            n,
            l,
        ) by {
            if n == fresh {
                self.lemma_fresh_link(pre, update, h, e, l);
            } else if l < h && update[l] == n {
                self.lemma_redirected_link(pre, update, h, e, l);
            } else {
                self.lemma_kept_link(pre, update, h, e, n, l);
            }
        }
    }

    /// The link of the new node at level `l`.
    proof fn lemma_fresh_link(&self, pre: &SkipList<T>, update: Seq<usize>, h: int, e: T::V, l: int)
        requires
            pre.wf(),
            pre.precede(update, e),
            1 <= h <= pre.k_max_height,
            self.spliced_from(pre, update, h, e),
            0 <= l < h,
        ensures
            self.link_ok(pre.size(), l),
    {
        let fresh = pre.size();
        let pos = pre.rank@[update[0] as int] + 1;
        let u = update[l] as int;
        self.lemma_splice_bijective(pre, update, h, e);
        pre.lemma_update_spans(update, e, l);
        assert(self.link(fresh, l) == pre.link(u, l));
        assert(pre.reach(u, l) >= pos);
        match pre.link(u, l) {
            Some(m) => {
                assert(self.height(m as int) == pre.height(m as int));
                assert(self.rank@[m as int] == shifted(pos, pre.rank@[m as int]));
            },
            None => {},
        }
        assert(self.reach(fresh, l) == pre.reach(u, l) + 1);
        assert forall|p: int| self.rank@[fresh] < p < self.reach(fresh, l) implies #[trigger] self.height(
            self.order@[p],
        ) <= l by {
            assert(self.order@[shifted(pos, p - 1)] == pre.order@[p - 1]);
            assert(pre.height(pre.order@[p - 1]) <= l);
            assert(0 <= pre.order@[p - 1] < pre.size());
            assert(self.height(pre.order@[p - 1]) == pre.height(pre.order@[p - 1]));
        }
    }

    /// The link that now leads to the new node.
    proof fn lemma_redirected_link(
        &self,
        pre: &SkipList<T>,
        update: Seq<usize>,
        h: int,
        e: T::V,
        l: int,
    )
        requires
            pre.wf(),
            pre.precede(update, e),
            1 <= h <= pre.k_max_height,
            self.spliced_from(pre, update, h, e),
            0 <= l < h,
        ensures
            self.link_ok(update[l] as int, l),
    {
        let fresh = pre.size();
        let pos = pre.rank@[update[0] as int] + 1;
        let u = update[l] as int;
        self.lemma_splice_bijective(pre, update, h, e);
        pre.lemma_update_spans(update, e, l);
        assert(pre.stops_before(u, l, e));
        assert(self.link(u, l) == Some(fresh as usize));
        assert(self.rank@[u] == shifted(pos, pre.rank@[u]));
        assert(self.reach(u, l) == pos);
        assert forall|p: int| self.rank@[u] < p < self.reach(u, l) implies #[trigger] self.height(
            self.order@[p],
        ) <= l by {
            assert(self.order@[shifted(pos, p)] == pre.order@[p]);
            assert(pre.height(pre.order@[p]) <= l);
            assert(0 <= pre.order@[p] < pre.size());
            assert(self.height(pre.order@[p]) == pre.height(pre.order@[p]));
        }
    }

    /// A link that leads where it led.
    proof fn lemma_kept_link(
        &self,
        pre: &SkipList<T>,
        update: Seq<usize>,
        h: int,
        e: T::V,
        n: int,
        l: int,
    )
        requires
            pre.wf(),
            pre.precede(update, e),
            1 <= h <= pre.k_max_height,
            self.spliced_from(pre, update, h, e),
            0 <= n < pre.size(),
            0 <= l < pre.height(n),
            !(l < h && update[l] == n),
        ensures
            self.link_ok(n, l),
    {
        let fresh = pre.size();
        let pos = pre.rank@[update[0] as int] + 1;
        self.lemma_splice_bijective(pre, update, h, e);
        pre.lemma_update_spans(update, e, 0);
        assert(pre.link_ok(n, l));
        assert(self.link(n, l) == pre.link(n, l));
        assert(self.rank@[n] == shifted(pos, pre.rank@[n]));
        match pre.link(n, l) {
            Some(m) => {
                assert(self.height(m as int) == pre.height(m as int));
                assert(self.rank@[m as int] == shifted(pos, pre.rank@[m as int]));
            },
            None => {},
        }
        assert(self.reach(n, l) == shifted(pos, pre.reach(n, l)));
        assert forall|p: int| self.rank@[n] < p < self.reach(n, l) implies #[trigger] self.height(
            self.order@[p],
        ) <= l by {
            if p == pos {
                if l < h {
                    let u = update[l] as int;
                    pre.lemma_update_spans(update, e, l);
                    assert(pre.stops_before(u, l, e));
                    assert(pre.order@[pre.rank@[u]] == u);
                    assert(pre.order@[pre.rank@[n]] == n);
                    if pre.rank@[n] < pre.rank@[u] {
                        assert(pre.height(pre.order@[pre.rank@[u]]) <= l);
                    } else {
                        assert(pre.height(pre.order@[pre.rank@[n]]) <= l);
                    }
                }
            } else if p < pos {
                assert(self.order@[shifted(pos, p)] == pre.order@[p]);
                assert(pre.height(pre.order@[p]) <= l);
                assert(0 <= pre.order@[p] < pre.size());
                assert(self.height(pre.order@[p]) == pre.height(pre.order@[p]));
            } else {
                assert(self.order@[shifted(pos, p - 1)] == pre.order@[p - 1]);
                assert(pre.height(pre.order@[p - 1]) <= l);
                assert(0 <= pre.order@[p - 1] < pre.size());
                assert(self.height(pre.order@[p - 1]) == pre.height(pre.order@[p - 1]));
            }
        }
    }

    /// Putting a node in behind the last nodes before its element keeps the
    /// invariant, and puts the element in its place.
    proof fn lemma_splice(&self, pre: &SkipList<T>, update: Seq<usize>, h: int, e: T::V)
        requires
            pre.wf(),
            pre.precede(update, e),
            1 <= h <= pre.k_max_height,
            self.spliced_from(pre, update, h, e),
        ensures
            self.wf(),
            self@ == ordered_insert::<T>(pre@, e),
    {
        self.lemma_splice_bijective(pre, update, h, e);
        self.lemma_splice_sorted(pre, update, h, e);
        self.lemma_splice_heights(pre, update, h, e);
        self.lemma_splice_links(pre, update, h, e);
    }
}

/// `Rng::gen_ratio` of the crate rand, on the generator of the calling
/// thread: a draw that is `true` with a chance of `numerator` in
/// `denominator`. It is certainly `true` where the two are equal and
/// certainly `false` where `numerator` is 0; of any other draw nothing is
/// known. The call panics where `denominator` is 0 or less than `numerator`.
#[verifier::external_body]
fn draw_ratio(numerator: u32, denominator: u32) -> (b: bool)
    requires
        0 < denominator,
        numerator <= denominator,
    ensures
        numerator == denominator ==> b,
        numerator == 0 ==> !b,
{
    rand::thread_rng().gen_ratio(numerator, denominator)
}

/// How many draws at the front of `draws` came out `true`.
pub open spec fn leading_successes(draws: Seq<bool>) -> nat
    decreases draws.len(),
{
    if draws.len() == 0 || !draws[0] {
        0
    } else {
        1 + leading_successes(draws.drop_first())
    }
}

/// The height that a run of draws gives to a node: 1, and one more for each
/// draw that came out `true` before the first that did not; `limit` at most.
pub open spec fn height_of_draws(draws: Seq<bool>, limit: u16) -> nat {
    if 1 + leading_successes(draws) < limit {
        1 + leading_successes(draws)
    } else {
        limit as nat
    }
}

/// The height after one draw at the height `level`: one more where the draw
/// came out `true` and the limit is not reached, `level` else.
pub open spec fn climbed(level: u16, limit: u16, draw: bool) -> u16 {
    if draw && level < limit {
        (level + 1) as u16
    } else {
        level
    }
}

/// Where the first `k` draws came out `true` and the next did not, or there
/// is no next, `k` draws lead.
pub proof fn lemma_leading_successes(draws: Seq<bool>, k: int)
    requires
        0 <= k <= draws.len(),
        forall|i: int| 0 <= i < k ==> #[trigger] draws[i],
        k < draws.len() ==> !draws[k],
    ensures
        leading_successes(draws) == k,
    decreases k,
{
    if k > 0 {
        let rest = draws.drop_first();
        assert forall|i: int| 0 <= i < k - 1 implies #[trigger] rest[i] by {
            assert(rest[i] == draws[i + 1]);
        }
        if k < draws.len() {
            assert(rest[k - 1] == draws[k]);
        }
        lemma_leading_successes(rest, k - 1);
    }
}

/// The height after one draw at the height `level`.
pub fn climb(level: u16, limit: u16, draw: bool) -> (next: u16)
    ensures
        next == climbed(level, limit, draw),
{
    if draw && level < limit {
        level + 1
    } else {
        level
    }
}

impl<T: Ordered> SkipList<T> {
    /// One draw: `true` with a chance of one in the branching factor. A
    /// branching factor of 0 stands for a draw that always comes out `true`.
    fn promote(&self) -> (draw: bool)
        ensures
            self.branching() <= 1 ==> draw,
    {
        self.branching_factor == 0 || draw_ratio(1, self.branching_factor as u32)
    }

    /// Draws the height of a new node. It starts at 1 and climbs by one with
    /// each draw that comes out `true`; the first draw that does not, or the
    /// limit, ends it. Gives the height and the draws that were made.
    fn random_height(&self) -> (r: (u16, Ghost<Seq<bool>>))
        requires
            self.wf(),
        ensures
            r.0 == height_of_draws(r.1@, self.height_limit()),
            1 <= r.0 <= self.height_limit(),
            self.branching() <= 1 ==> r.0 == self.height_limit(),
    {
        let limit = self.k_max_height;
        let mut lvl: u16 = 1;
        let mut rising = true;
        let ghost mut draws: Seq<bool> = Seq::empty();
        while rising && lvl < limit
            invariant
                limit == self.k_max_height,
                1 <= lvl <= limit,
                self.branching_factor <= 1 ==> rising,
                rising ==> lvl == 1 + draws.len(),
                !rising ==> lvl == draws.len() && !draws.last(),
                forall|i: int| 0 <= i < lvl - 1 ==> #[trigger] draws[i],
            decreases limit - lvl + (if rising { 1int } else { 0int }),
        {
            let draw = self.promote();
            lvl = climb(lvl, limit, draw);
            rising = draw;
            proof {
                draws = draws.push(draw);
            }
        }
        proof {
            lemma_leading_successes(draws, lvl - 1);
        }
        (lvl, Ghost(draws))
    }

    /// Puts `elt` into the list as a node of the given height; leaves the
    /// list as it is where it holds an equal element already.
    pub fn insert_node(&mut self, elt: T, height: u16)
        requires
            old(self).wf(),
            1 <= height <= old(self).height_limit(),
        ensures
            final(self).wf(),
            final(self)@ == ordered_insert::<T>(old(self)@, elt@),
            final(self).height_limit() == old(self).height_limit(),
            final(self).branching() == old(self).branching(),
            final(self).top_height() == if old(self)@.contains(elt@) || height <= old(
                self,
            ).top_height() {
                old(self).top_height()
            } else {
                height
            },
    {
        let (update, found) = self.find(&elt);
        if found {
            return ;
        }
        let ghost pre = *self;
        let ghost e = elt@;
        let fresh = self.nodes.len();
        let mut next: Vec<Option<usize>> = Vec::new();
        let mut l: u16 = 0;
        while l < height
            invariant
                *self == pre,
                pre.wf(),
                pre.precede(update@, e),
                l <= height <= pre.k_max_height,
                next@.len() == l,
                forall|k: int| 0 <= k < l ==> #[trigger] next@[k] == pre.link(update@[k] as int, k),
            decreases height - l,
        {
            assert(pre.stops_before(update@[l as int] as int, l as int, e));
            let u = update[l as usize];
            let link = self.nodes[u].next[l as usize];
            next.push(link);
            l += 1;
        }
        let node = Node { element: elt, next };
        self.nodes.push(node);
        if height > self.max_height {
            self.max_height = height;
        }
        proof {
            pre.lemma_update_spans(update@, e, 0);
        }
        self.len += 1;
        let ghost pos = pre.rank@[update@[0] as int] + 1;
        self.order = Ghost(pre.order@.insert(pos, fresh as int));
        self.rank = Ghost(
            Seq::new(
                (fresh + 1) as nat,
                |n: int|
                    if n == fresh {
                        pos
                    } else {
                        shifted(pos, pre.rank@[n])
                    },
            ),
        );
        let ghost order = self.order@;
        let ghost rank = self.rank@;
        l = 0;
        while l < height
            invariant
                pre.wf(),
                pre.precede(update@, e),
                fresh == pre.size(),
                l <= height <= pre.k_max_height,
                self.relinked(&pre, update@, l as int, height as int, e),
                self.k_max_height == pre.k_max_height,
                self.max_height == if height > pre.max_height {
                    height
                } else {
                    pre.max_height
                },
                self.branching_factor == pre.branching_factor,
                self.len == pre.len + 1,
                self.order@ == order,
                self.rank@ == rank,
            decreases height - l,
        {
            assert(pre.stops_before(update@[l as int] as int, l as int, e));
            let u = update[l as usize];
            let ghost held = *self;
            assert(self.height(u as int) == pre.height(u as int));
            self.nodes[u].next[l as usize] = Some(fresh);
            assert forall|n: int, k: int| 0 <= n < fresh && 0 <= k < pre.height(n) implies #[trigger] self.link(
                n,
                k,
            ) == if k < l + 1 && update@[k] == n {
                Some(fresh)
            } else {
                pre.link(n, k)
            } by {
                assert(held.height(n) == pre.height(n));
                if !(n == u && k == l) {
                    assert(self.link(n, k) == held.link(n, k));
                }
            }
            assert forall|n: int| 0 <= n < fresh implies #[trigger] self.key(n) == pre.key(n) by {
                assert(held.key(n) == pre.key(n));
            }
            assert forall|n: int| 0 <= n < fresh implies #[trigger] self.height(n) == pre.height(
                n,
            ) by {
                assert(held.height(n) == pre.height(n));
            }
            assert forall|k: int| 0 <= k < height implies #[trigger] self.link(fresh as int, k)
                == pre.link(update@[k] as int, k) by {
                assert(held.link(fresh as int, k) == pre.link(update@[k] as int, k));
            }
            l += 1;
        }
        proof {
            self.lemma_splice(&pre, update@, height as int, e);
            pre.lemma_split(update@[0] as int, e);
        }
    }
}

impl<T: Ordered> SkipList<T> {
    /// Puts `elt` into the list; leaves the list as it is where it holds an
    /// equal element already. The height of the new node is drawn at random.
    pub fn insert(&mut self, elt: T)
        requires
            old(self).wf(),
        ensures
            final(self).wf(),
            final(self)@ == ordered_insert::<T>(old(self)@, elt@),
            final(self).height_limit() == old(self).height_limit(),
            final(self).branching() == old(self).branching(),
            old(self).top_height() <= final(self).top_height() <= old(self).height_limit(),
            old(self)@.contains(elt@) ==> final(self).top_height() == old(self).top_height(),
            !old(self)@.contains(elt@) && old(self).branching() <= 1 ==> final(self).top_height()
                == old(self).height_limit(),
    {
        proof {
            self.lemma_view_ascending();
        }
        let (height, _) = self.random_height();
        self.insert_node(elt, height);
    }
}

impl<T: Ordered + Default> Default for SkipList<T> {
    /// An empty list with room for 16 levels and a branching factor of 4.
    fn default() -> (list: Self)
        ensures
            list.wf(),
            list@ == Seq::<T::V>::empty(),
            list.height_limit() == 16,
            list.top_height() == 1,
            list.branching() == 4,
    {
        Self::new(16, 4)
    }
}

/// A traversal of a skip list in ascending order.
pub struct Iter<'a, T> {
    list: &'a SkipList<T>,
    head: usize,
    len: usize,
}

impl<'a, T> Clone for Iter<'a, T> {
    /// A second traversal that stands where this one stands.
    fn clone(&self) -> (it: Self)
        ensures
            it == *self,
    {
        Iter { list: self.list, head: self.head, len: self.len }
    }
}

impl<'a, T: Ordered> Iter<'a, T> {
    /// The list that is traversed.
    pub closed spec fn list(&self) -> &SkipList<T> {
        self.list
    }

    /// How many elements the traversal has yielded.
    pub closed spec fn position(&self) -> int {
        self.list.rank@[self.head as int]
    }

    /// The invariant of the traversal.
    pub closed spec fn wf(&self) -> bool {
        &&& self.list.wf()
        &&& self.head < self.list.size()
        &&& self.len == self.list.size() - 1 - self.list.rank@[self.head as int]
    }

    /// The elements that the traversal has yet to yield.
    pub open spec fn remaining(&self) -> Seq<T::V> {
        self.list()@.skip(self.position())
    }

    /// A traversal has yielded no more elements than its list holds.
    pub proof fn lemma_position_bound(&self)
        requires
            self.wf(),
        ensures
            0 <= self.position() <= self.list()@.len(),
    {
    }

    /// The next element of the traversal, or `None` when all were yielded.
    pub fn next(&mut self) -> (r: Option<&'a T>)
        requires
            old(self).wf(),
        ensures
            final(self).wf(),
            final(self).list() == old(self).list(),
            match r {
                None => old(self).position() == old(self).list()@.len() && final(self).position()
                    == old(self).position(),
                Some(x) => old(self).position() < old(self).list()@.len() && x@ == old(
                    self,
                ).list()@[old(self).position()] && final(self).position() == old(self).position()
                    + 1,
            },
    {
        if self.len == 0 {
            None
        } else {
            proof {
                self.list.lemma_ground_link(self.head as int);
            }
            match self.list.nodes[self.head].next[0] {
                Some(m) => {
                    proof {
                        assert(self.list.rank@[self.list.order@[self.list.rank@[self.head as int]
                            + 1]] == self.list.rank@[self.head as int] + 1);
                    }
                    self.head = m;
                    self.len -= 1;
                    Some(&self.list.nodes[m].element)
                },
                None => None,
            }
        }
    }
}

} // verus!
