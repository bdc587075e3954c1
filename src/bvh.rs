use vstd::prelude::*;
use vstd::multiset::Multiset;
use vstd::seq_lib::lemma_multiset_commutative;

use crate::accel::SmallId;

verus! {

/// How the tree builder picks the plane that splits a node.
#[derive(Debug, Copy, Clone, PartialEq, Eq, Structural)]
pub enum BVHSplitStrategy {
    /// Split the axis of largest extent at its middle.
    SplitLargestAxis,
    /// Minimise the surface-area cost; `test_planes` bounds the candidate
    /// planes per axis for large nodes.
    SurfaceAreaHeuristic { test_planes: Option<usize> },
}

impl Default for BVHSplitStrategy {
    fn default() -> (r: Self)
        ensures
            r == BVHSplitStrategy::SplitLargestAxis,
    {
        BVHSplitStrategy::SplitLargestAxis
    }
}

/// Which candidate planes the surface-area heuristic tries on a node of `len`
/// objects: `Some(n)` for `n` evenly spaced planes per axis, when the node
/// holds more than `n` objects; `None` for one plane through each object
/// centroid.
pub fn sah_plane_count(len: u32, test_planes: Option<usize>) -> (r: Option<usize>)
    ensures
        r == (match test_planes {
            Some(n) => if len > n { Some(n) } else { None },
            None => None,
        }),
{
    match test_planes {
        Some(n) => if len as usize > n { Some(n) } else { None },
        None => None,
    }
}

/// A node of the tree: a leaf owns the slice `[start, start + len)` of the
/// tree's id array; a branch has its children at `left_index` and
/// `left_index + 1`.
#[derive(Debug, Copy, Clone, PartialEq, Eq, Structural)]
pub enum NodeKind {
    Leaf { start: u32, len: u32 },
    Branch { left_index: u32 },
}

/// The id of object `i`.
pub open spec fn id_of(i: int) -> SmallId {
    SmallId { index: i as u32 }
}

/// The ids `0 .. n`, each once.
pub open spec fn id_range(n: nat) -> Multiset<SmallId> {
    Seq::new(n, |i: int| id_of(i)).to_multiset()
}

/// Whether object `id` is flagged.
pub fn flag_of(flags: &Vec<bool>, id: &SmallId) -> (r: bool)
    requires
        id.index < flags@.len(),
    ensures
        r == flags@[id.index as int],
{
    flags[id.index as usize]
}

/// Relies on itertools::partition: it reorders `ids[start..end]` by swaps so
/// that the ids whose flag is set come first, and returns how many they are.
#[verifier::external_body]
fn partition_ids(ids: &mut Vec<SmallId>, start: usize, end: usize, flags: &Vec<bool>) -> (r: usize)
    requires
        start <= end <= old(ids)@.len(),
        forall|k: int| start <= k < end ==> (#[trigger] old(ids)@[k]).index < flags@.len(),
    ensures
        final(ids)@.len() == old(ids)@.len(),
        r <= end - start,
        final(ids)@.subrange(0, start as int) == old(ids)@.subrange(0, start as int),
        final(ids)@.subrange(end as int, final(ids)@.len() as int) == old(ids)@.subrange(
            end as int,
            old(ids)@.len() as int,
        ),
        final(ids)@.subrange(start as int, end as int).to_multiset() == old(ids)@.subrange(
            start as int,
            end as int,
        ).to_multiset(),
        forall|k: int| start <= k < start + r ==> flags@[(#[trigger] final(ids)@[k]).index as int],
        forall|k: int| start + r <= k < end ==> !flags@[(#[trigger] final(ids)@[k]).index as int],
{
    itertools::partition(&mut ids[start..end], |id| flag_of(flags, id))
}

/// An id that occurs in a sequence whose multiset is `id_range(n)` is below `n`.
proof fn lemma_id_in_range(s: Seq<SmallId>, n: nat, k: int)
    requires
        s.to_multiset() == id_range(n),
        n < u32::MAX,
        0 <= k < s.len(),
    ensures
        s[k].index < n,
{
    let all = Seq::new(n, |i: int| id_of(i));
    s.to_multiset_ensures();
    all.to_multiset_ensures();
    assert(s.contains(s[k]));
    assert(s.to_multiset().count(s[k]) > 0);
    assert(all.to_multiset().count(s[k]) > 0);
    assert(all.contains(s[k]));
    let j = choose|j: int| 0 <= j < all.len() && all[j] == s[k];
    assert(all[j].index == j as u32);
}

/// Index structure of the bounding volume hierarchy. Objects with unbounded
/// boxes sit in a separate list; the others are ordered in `ids` so that each
/// leaf owns a contiguous slice of it.
pub struct BvhTree {
    object_count: u32,
    global_ids: Vec<SmallId>,
    ids: Vec<SmallId>,
    nodes: Vec<NodeKind>,
    /// The slice of `ids` below each node.
    spans: Ghost<Seq<(int, int)>>,
}

impl BvhTree {
    pub closed spec fn spec_object_count(self) -> nat {
        self.object_count as nat
    }

    pub closed spec fn spec_global_ids(self) -> Seq<SmallId> {
        self.global_ids@
    }

    pub closed spec fn spec_ids(self) -> Seq<SmallId> {
        self.ids@
    }

    pub closed spec fn spec_nodes(self) -> Seq<NodeKind> {
        self.nodes@
    }

    /// The slice `[start, end)` of the id array below each node.
    pub closed spec fn spans(self) -> Seq<(int, int)> {
        self.spans@
    }

    /// Node `i` is consistent with its span and with its children.
    pub open spec fn node_wf(self, i: int) -> bool {
        let nodes = self.spec_nodes();
        let spans = self.spans();
        let s = spans[i].0;
        let e = spans[i].1;
        &&& 0 <= s < e <= self.spec_ids().len()
        &&& match nodes[i] {
            NodeKind::Leaf { start, len } => start == s && start + len == e,
            NodeKind::Branch { left_index } => {
                &&& i < left_index
                &&& left_index + 1 < nodes.len()
                &&& spans[left_index as int].0 == s
                &&& spans[left_index as int].1 == spans[left_index + 1].0
                &&& spans[left_index + 1].1 == e
            },
        }
    }

    /// The tree holds every object id once, and its nodes split the id array
    /// into nested slices: the root owns all of it, a branch the union of its
    /// children's adjacent slices.
    pub open spec fn wf(self) -> bool {
        let nodes = self.spec_nodes();
        &&& self.spec_object_count() < u32::MAX
        &&& self.spec_ids().len() + self.spec_global_ids().len() == self.spec_object_count()
        &&& (self.spec_ids() + self.spec_global_ids()).to_multiset() == id_range(
            self.spec_object_count(),
        )
        &&& self.spans().len() == nodes.len()
        &&& (nodes.len() == 0 <==> self.spec_ids().len() == 0)
        &&& nodes.len() > 0 ==> self.spans()[0] == (0int, self.spec_ids().len() as int)
        &&& nodes.len() < u32::MAX
        &&& forall|i: int| 0 <= i < nodes.len() ==> #[trigger] self.node_wf(i)
    }

    /// The walk below a node meets exactly the ids of the node's span, in order.
    pub proof fn lemma_walk_is_span(self, i: int)
        requires
            self.wf(),
            0 <= i < self.spec_nodes().len(),
        ensures
            self.walk(i) == self.spec_ids().subrange(self.spans()[i].0, self.spans()[i].1),
        decreases self.spec_nodes().len() - i,
    {
        assert(self.node_wf(i));
        match self.spec_nodes()[i] {
            NodeKind::Leaf { start, len } => {},
            NodeKind::Branch { left_index } => {
                let l = left_index as int;
                assert(self.node_wf(l));
                assert(self.node_wf(l + 1));
                self.lemma_walk_is_span(l);
                self.lemma_walk_is_span(l + 1);
                let ids = self.spec_ids();
                assert(ids.subrange(self.spans()[l].0, self.spans()[l].1) + ids.subrange(
                    self.spans()[l + 1].0,
                    self.spans()[l + 1].1,
                ) =~= ids.subrange(self.spans()[i].0, self.spans()[i].1));
            },
        }
    }

    /// Every object id occurs exactly once among the tree's leaves and its list
    /// of unbounded objects: the two together hold each of `0 .. n` and
    /// nothing else, with no repetition.
    pub proof fn lemma_each_object_once(self)
        requires
            self.wf(),
        ensures
            (self.walk(0) + self.spec_global_ids()).to_multiset() == id_range(
                self.spec_object_count(),
            ),
            (self.walk(0) + self.spec_global_ids()).no_duplicates(),
            forall|k: int|
                0 <= k < self.spec_object_count() ==> (self.walk(0)
                    + self.spec_global_ids()).contains(#[trigger] id_of(k)),
            forall|x: SmallId|
                (self.walk(0) + self.spec_global_ids()).contains(x) ==> x.index
                    < self.spec_object_count(),
    {
        if self.spec_nodes().len() > 0 {
            self.lemma_walk_is_span(0);
        }
        assert(self.walk(0) =~= self.spec_ids());
        let s = self.walk(0) + self.spec_global_ids();
        let n = self.spec_object_count();
        let all = Seq::new(n, |i: int| id_of(i));
        assert(all.no_duplicates());
        all.lemma_multiset_has_no_duplicates();
        s.to_multiset_ensures();
        all.to_multiset_ensures();
        s.lemma_multiset_has_no_duplicates_conv();
        assert forall|k: int| 0 <= k < n implies s.contains(#[trigger] id_of(k)) by {
            assert(all[k] == id_of(k));
            assert(all.contains(all[k]));
            assert(all.to_multiset().count(id_of(k)) > 0);
            assert(s.to_multiset().count(id_of(k)) > 0);
        }
        assert forall|x: SmallId| s.contains(x) implies x.index < n by {
            let j = choose|j: int| 0 <= j < s.len() && s[j] == x;
            lemma_id_in_range(s, n, j);
        }
    }

    /// Starts the tree over `finite@.len()` objects: those whose flag in
    /// `finite` is set (the ones with a bounded box) form a single root leaf,
    /// the others go to the list of unbounded objects.
    pub fn new(finite: &Vec<bool>) -> (r: BvhTree)
        requires
            finite@.len() < u32::MAX,
        ensures
            r.wf(),
            r.spec_object_count() == finite@.len(),
            forall|k: int|
                0 <= k < r.spec_ids().len() ==> finite@[(#[trigger] r.spec_ids()[k]).index as int],
            forall|k: int|
                0 <= k < r.spec_global_ids().len() ==> !finite@[(
                #[trigger] r.spec_global_ids()[k]).index as int],
            r.spec_nodes() == (if r.spec_ids().len() == 0 {
                Seq::<NodeKind>::empty()
            } else {
                seq![NodeKind::Leaf { start: 0, len: r.spec_ids().len() as u32 }]
            }),
    {
        let n: u32 = finite.len() as u32;
        let mut ids: Vec<SmallId> = Vec::new();
        let mut i: u32 = 0;
        while i < n
            invariant
                i <= n,
                n == finite@.len(),
                ids@.len() == i,
                forall|j: int| 0 <= j < i ==> (#[trigger] ids@[j]).index == j,
            decreases n - i,
        {
            ids.push(SmallId { index: i });
            i = i + 1;
        }
        let ghost all = ids@;
        assert(all =~= Seq::new(n as nat, |j: int| id_of(j)));
        let split = partition_ids(&mut ids, 0, n as usize, finite);
        let ghost parted = ids@;
        assert(parted.subrange(0, n as int) =~= parted);
        assert(all.subrange(0, n as int) =~= all);
        let global_ids = ids.split_off(split);
        assert(ids@ + global_ids@ =~= parted);
        let len = ids.len();
        if len == 0 {
            BvhTree { object_count: n, global_ids, ids, nodes: Vec::new(), spans: Ghost(Seq::<(int, int)>::empty()) }
        } else {
            let mut nodes: Vec<NodeKind> = Vec::new();
            nodes.push(NodeKind::Leaf { start: 0, len: len as u32 });
            let ghost root_span = seq![(0int, len as int)];
            let r = BvhTree {
                object_count: n,
                global_ids,
                ids,
                nodes,
                spans: Ghost(root_span),
            };
            assert(r.node_wf(0));
            r
        }
    }

    /// Splits leaf `node` by the object flags: the ids of its slice whose flag
    /// is set move to the front of the slice and become a new left leaf, the
    /// others a new right leaf, and `node` becomes a branch over the two;
    /// the index of the left leaf comes back. When the flags put all ids of
    /// the slice on one side, or the node array is full, `node` stays a leaf
    /// and `None` comes back.
    pub fn split_leaf(&mut self, node: u32, flags: &Vec<bool>) -> (r: Option<u32>)
        requires
            old(self).wf(),
            node < old(self).spec_nodes().len(),
            old(self).spec_nodes()[node as int] is Leaf,
            flags@.len() == old(self).spec_object_count(),
        ensures
            final(self).wf(),
            final(self).spec_object_count() == old(self).spec_object_count(),
            final(self).spec_global_ids() == old(self).spec_global_ids(),
            ({
                let start = old(self).spec_nodes()[node as int]->Leaf_start as int;
                let len = old(self).spec_nodes()[node as int]->Leaf_len as int;
                let end = start + len;
                let prev = old(self).spec_ids();
                let ids = final(self).spec_ids();
                let nodes = old(self).spec_nodes();
                &&& ids.len() == prev.len()
                &&& ids.subrange(0, start) == prev.subrange(0, start)
                &&& ids.subrange(end, ids.len() as int) == prev.subrange(end, prev.len() as int)
                &&& ids.subrange(start, end).to_multiset() == prev.subrange(start, end).to_multiset()
                &&& match r {
                    Some(left) => {
                        let k = final(self).spec_nodes()[left as int]->Leaf_len as int;
                        &&& 0 < k < len
                        &&& left == nodes.len()
                        &&& final(self).spec_nodes() == nodes.update(
                            node as int,
                            NodeKind::Branch { left_index: left },
                        ).push(NodeKind::Leaf { start: start as u32, len: k as u32 }).push(
                            NodeKind::Leaf { start: (start + k) as u32, len: (len - k) as u32 },
                        )
                        &&& forall|j: int|
                            start <= j < start + k ==> flags@[(#[trigger] ids[j]).index as int]
                        &&& forall|j: int|
                            start + k <= j < end ==> !flags@[(#[trigger] ids[j]).index as int]
                    },
                    None => {
                        &&& final(self).spec_nodes() == nodes
                        &&& nodes.len() + 2 >= u32::MAX || (forall|j: int|
                            start <= j < end ==> flags@[(#[trigger] ids[j]).index as int]) || (
                        forall|j: int| start <= j < end ==> !flags@[(#[trigger] ids[j]).index as int])
                    },
                }
            }),
    {
        let (start, len) = match self.nodes[node as usize] {
            NodeKind::Leaf { start, len } => (start, len),
            NodeKind::Branch { .. } => {
                return None;
            },
        };
        assert(self.node_wf(node as int));
        let n_ids: usize = self.ids.len();
        let end: usize = start as usize + len as usize;
        if self.nodes.len() >= u32::MAX as usize - 2 {
            return None;
        }
        let ghost prev = self.ids@;
        let ghost all = self.ids@ + self.global_ids@;
        assert forall|k: int| start <= k < end implies (#[trigger] self.ids@[k]).index < flags@.len() by {
            assert(all[k] == self.ids@[k]);
            lemma_id_in_range(all, self.object_count as nat, k);
        }
        let split = partition_ids(&mut self.ids, start as usize, end, flags);
        proof {
            let ids = self.ids@;
            let s = start as int;
            let e = end as int;
            let n = ids.len() as int;
            assert(prev.len() == n);
            assert(ids =~= ids.subrange(0, s) + ids.subrange(s, e) + ids.subrange(e, n));
            assert(prev =~= prev.subrange(0, s) + prev.subrange(s, e) + prev.subrange(e, n));
            lemma_multiset_commutative(ids.subrange(0, s), ids.subrange(s, e));
            lemma_multiset_commutative(ids.subrange(0, s) + ids.subrange(s, e), ids.subrange(e, n));
            lemma_multiset_commutative(prev.subrange(0, s), prev.subrange(s, e));
            lemma_multiset_commutative(prev.subrange(0, s) + prev.subrange(s, e), prev.subrange(e, n));
            lemma_multiset_commutative(ids, self.global_ids@);
            lemma_multiset_commutative(prev, self.global_ids@);
            assert(self.node_wf(node as int));
            assert forall|i: int| 0 <= i < self.nodes@.len() implies #[trigger] self.node_wf(i) by {
                assert(old(self).node_wf(i));
            }
        }
        if split == 0 || split == len as usize {
            return None;
        }
        let left_index: u32 = self.nodes.len() as u32;
        let ghost old_nodes = self.nodes@;
        let ghost old_spans = self.spans@;
        self.nodes.push(NodeKind::Leaf { start, len: split as u32 });
        self.nodes.push(NodeKind::Leaf { start: start + split as u32, len: len - split as u32 });
        self.nodes.set(node as usize, NodeKind::Branch { left_index });
        let ghost new_spans = old_spans.push((start as int, start + split)).push(
            (start + split, end as int),
        );
        self.spans = Ghost(new_spans);
        proof {
            assert forall|i: int| 0 <= i < self.nodes@.len() implies #[trigger] self.node_wf(i) by {
                if i < old_nodes.len() && i != node {
                    assert(old(self).node_wf(i));
                }
            }
        }
        Some(left_index)
    }

    /// Number of objects the tree was built over.
    pub fn object_count(&self) -> (r: u32)
        ensures
            r == self.spec_object_count(),
    {
        self.object_count
    }

    /// Number of nodes; zero when no object has a bounded box.
    pub fn node_count(&self) -> (r: usize)
        ensures
            r == self.spec_nodes().len(),
    {
        self.nodes.len()
    }

    /// Node `i`; the root is node 0.
    pub fn node(&self, i: usize) -> (r: NodeKind)
        requires
            i < self.spec_nodes().len(),
        ensures
            r == self.spec_nodes()[i as int],
    {
        self.nodes[i]
    }

    /// The tree's id array, in leaf order.
    pub fn ids(&self) -> (r: &Vec<SmallId>)
        ensures
            r@ == self.spec_ids(),
    {
        &self.ids
    }

    /// The objects with unbounded boxes, tested on every query.
    pub fn global_ids(&self) -> (r: &Vec<SmallId>)
        ensures
            r@ == self.spec_global_ids(),
    {
        &self.global_ids
    }

    /// The ids met by a depth-first walk of the leaves below node `i`, left
    /// child first.
    pub open spec fn walk(self, i: int) -> Seq<SmallId>
        decreases self.spec_nodes().len() - i,
    {
        let nodes = self.spec_nodes();
        if i < 0 || i >= nodes.len() {
            Seq::empty()
        } else {
            match nodes[i] {
                NodeKind::Leaf { start, len } => self.spec_ids().subrange(
                    start as int,
                    start + len,
                ),
                NodeKind::Branch { left_index } => if i < left_index && left_index + 1
                    < nodes.len() {
                    self.walk(left_index as int) + self.walk(left_index + 1)
                } else {
                    Seq::empty()
                },
            }
        }
    }
}

} // verus!
