//! A taxonomy: classes or properties with their direct sub-relations, and
//! interval labels that answer containment without a traversal.
//!
//! The nodes are held in an arena and refer to each other by index. A node
//! may have several parents. Labelling walks the taxonomy depth first from
//! the root and gives a node one interval for each path that leads to it.

use vstd::prelude::*;
use crate::numeric_encoder::hash_of_text;
use crate::numeric_encoder::StrHash;

verus! {

/// The number of layers that labelling goes down from the root, the root
/// being on layer 0: as many as the layer of a label can count.
pub const MAX_DEPTH: usize = 65536;

/// One label of a node: the interval of one visit of the node, the depth
/// of the visit, and the node from which the visit came.
#[derive(Clone, Copy, Debug, PartialEq, Eq, Structural)]
pub struct IntervalNode {
    pub start: u64,
    pub end: u64,
    pub layer: u16,
    pub parent: Option<usize>,
}

impl IntervalNode {
    /// The count at the entry of the visit.
    pub fn get_start(&self) -> (v: u64)
        ensures
            v == self.start,
    {
        self.start
    }

    /// The count at the exit of the visit.
    pub fn get_end(&self) -> (v: u64)
        ensures
            v == self.end,
    {
        self.end
    }

    /// The depth of the visit.
    pub fn get_layer(&self) -> (v: u16)
        ensures
            v == self.layer,
    {
        self.layer
    }

    /// The node from which the visit came.
    pub fn get_parent(&self) -> (v: Option<usize>)
        ensures
            v == self.parent,
    {
        self.parent
    }

    /// Whether this interval lies within `other`.
    pub open spec fn within(self, other: IntervalNode) -> bool {
        other.start <= self.start && self.end <= other.end
    }

    /// Whether this interval lies within `other`.
    pub fn is_within(&self, other: &IntervalNode) -> (b: bool)
        ensures
            b == self.within(*other),
    {
        other.start <= self.start && self.end <= other.end
    }
}

/// Why a taxonomy cannot be labelled.
#[derive(Clone, Copy, Debug, PartialEq, Eq, Structural)]
pub enum TaxonomyError {
    /// A chain of sub-relations from the root is longer than the layer of
    /// a label can count, as every chain is that runs into a circle.
    TooDeep,
    /// There are more visits than a label can count.
    TooLarge,
    /// A node is not below the root, as no node is to which only a circle
    /// of sub-relations leads.
    Unrooted,
}

/// A node of a taxonomy.
#[derive(Debug, PartialEq, Eq)]
pub struct MultiTreeNode {
    data: String,
    hash: StrHash,
    children: Vec<usize>,
    interval_nodes: Vec<IntervalNode>,
}

impl MultiTreeNode {
    /// The IRI of the node.
    pub closed spec fn data(&self) -> Seq<char> {
        self.data@
    }

    /// The hash of the IRI of the node.
    pub closed spec fn hash(&self) -> StrHash {
        self.hash
    }

    /// The direct sub-nodes of the node.
    pub closed spec fn children(&self) -> Seq<usize> {
        self.children@
    }

    /// The labels of the node.
    pub closed spec fn intervals(&self) -> Seq<IntervalNode> {
        self.interval_nodes@
    }

    /// The IRI of the node.
    pub fn get_data(&self) -> (s: &str)
        ensures
            s@ == self.data(),
    {
        self.data.as_str()
    }

    /// The hash of the IRI of the node.
    pub fn get_hash(&self) -> (h: StrHash)
        ensures
            h == self.hash(),
    {
        self.hash
    }

    /// The direct sub-nodes of the node.
    pub fn get_children(&self) -> (c: &Vec<usize>)
        ensures
            c@ == self.children(),
    {
        &self.children
    }

    /// The labels of the node.
    pub fn get_interval_nodes(&self) -> (v: &Vec<IntervalNode>)
        ensures
            v@ == self.intervals(),
    {
        &self.interval_nodes
    }
}

/// A taxonomy. Node 0 is its root.
#[derive(Debug, PartialEq, Eq)]
pub struct MultiTree {
    nodes: Vec<MultiTreeNode>,
}

impl MultiTree {
    /// The nodes of the taxonomy.
    pub closed spec fn nodes(&self) -> Seq<MultiTreeNode> {
        self.nodes@
    }

    /// The invariant of a taxonomy: it has a root, the IRI of a node has
    /// the hash of the node, no two nodes have the same hash, and the
    /// sub-nodes of a node are nodes other than the root, each listed once.
    pub open spec fn wf(&self) -> bool {
        let nodes = self.nodes();
        &&& nodes.len() >= 1
        &&& forall|i: int| 0 <= i < nodes.len() ==> (#[trigger] nodes[i]).hash() == hash_of_text(
            nodes[i].data(),
        )
        &&& forall|i: int, j: int|
            0 <= i < j < nodes.len() ==> (#[trigger] nodes[i]).hash() != (#[trigger] nodes[j]).hash()
        &&& forall|i: int, k: int|
            0 <= i < nodes.len() && 0 <= k < nodes[i].children().len() ==> 0 < (
            #[trigger] nodes[i].children()[k]) < nodes.len()
        &&& forall|i: int| 0 <= i < nodes.len() ==> (#[trigger] nodes[i]).children().no_duplicates()
    }

    /// Whether `c` is a direct sub-node of `p`.
    pub open spec fn edge(&self, p: int, c: int) -> bool {
        &&& 0 <= p < self.nodes().len()
        &&& 0 <= c < self.nodes().len()
        &&& exists|k: int|
            0 <= k < self.nodes()[p].children().len() && #[trigger] self.nodes()[p].children()[k]
                == c
    }

    /// The place of the node with a hash, if there is one.
    pub open spec fn index_of(&self, h: StrHash) -> Option<int> {
        if exists|i: int| 0 <= i < self.nodes().len() && (#[trigger] self.nodes()[i]).hash() == h {
            Some(choose|i: int| 0 <= i < self.nodes().len() && (#[trigger] self.nodes()[i]).hash() == h)
        } else {
            None
        }
    }

    /// A taxonomy with a root and nothing else.
    pub fn new(root: &str) -> (tree: MultiTree)
        ensures
            tree.wf(),
            tree.nodes().len() == 1,
            tree.nodes()[0].data() == root@,
            tree.nodes()[0].children().len() == 0,
            tree.nodes()[0].intervals().len() == 0,
    {
        let mut nodes: Vec<MultiTreeNode> = Vec::new();
        nodes.push(
            MultiTreeNode {
                data: root.to_owned(),
                hash: StrHash::new(root),
                children: Vec::new(),
                interval_nodes: Vec::new(),
            },
        );
        MultiTree { nodes }
    }

    /// The number of nodes.
    pub fn len(&self) -> (n: usize)
        ensures
            n == self.nodes().len(),
    {
        self.nodes.len()
    }

    /// The node at a place.
    pub fn get_node(&self, index: usize) -> (node: &MultiTreeNode)
        requires
            index < self.nodes().len(),
        ensures
            *node == self.nodes()[index as int],
    {
        &self.nodes[index]
    }

    /// The place of the node with a hash.
    pub fn find(&self, hash: StrHash) -> (r: Option<usize>)
        requires
            self.wf(),
        ensures
            match r {
                Some(i) => self.index_of(hash) == Some(i as int) && i < self.nodes().len()
                    && self.nodes()[i as int].hash() == hash,
                None => self.index_of(hash) is None,
            },
    {
        let mut i: usize = 0;
        while i < self.nodes.len()
            invariant
                i <= self.nodes@.len(),
                self.wf(),
                forall|j: int| 0 <= j < i ==> (#[trigger] self.nodes()[j]).hash() != hash,
            decreases self.nodes@.len() - i,
        {
            if self.nodes[i].hash.hash == hash.hash {
                proof {
                    let found = self.index_of(hash)->Some_0;
                    assert(self.nodes()[i as int].hash() == hash);
                    if found != i {
                        if found < i {
                            assert(self.nodes()[found].hash() != self.nodes()[i as int].hash());
                        } else {
                            assert(self.nodes()[i as int].hash() != self.nodes()[found].hash());
                        }
                    }
                }
                return Some(i);
            }
            i = i + 1;
        }
        None
    }

    /// The node with a hash.
    pub fn get_node_by_strhash(&self, hash: StrHash) -> (r: Option<&MultiTreeNode>)
        requires
            self.wf(),
        ensures
            match r {
                Some(node) => self.index_of(hash) matches Some(i) && *node == self.nodes()[i],
                None => self.index_of(hash) is None,
            },
    {
        match self.find(hash) {
            Some(i) => Some(&self.nodes[i]),
            None => None,
        }
    }
}

/// The place of `x` in a list, if the list holds it.
fn position_of(list: &Vec<usize>, x: usize) -> (r: Option<usize>)
    ensures
        match r {
            Some(k) => k < list@.len() && list@[k as int] == x,
            None => !list@.contains(x),
        },
{
    let mut k: usize = 0;
    while k < list.len()
        invariant
            k <= list@.len(),
            forall|j: int| 0 <= j < k ==> list@[j] != x,
        decreases list@.len() - k,
    {
        if list[k] == x {
            return Some(k);
        }
        k = k + 1;
    }
    None
}

/// The list with `x` at its end, unless the list holds `x`.
pub open spec fn with_item(list: Seq<usize>, x: usize) -> Seq<usize> {
    if list.contains(x) {
        list
    } else {
        list.push(x)
    }
}

/// The list without `x`, for a list that holds nothing twice.
pub open spec fn without_item(list: Seq<usize>, x: usize) -> Seq<usize> {
    if list.contains(x) {
        list.remove(list.index_of(x))
    } else {
        list
    }
}

/// What an insertion does to a taxonomy.
pub open spec fn insertion(before: MultiTree, after: MultiTree, child: Seq<char>, parent: Seq<char>) -> bool {
    let hc = hash_of_text(child);
    let hp = hash_of_text(parent);
    let old_nodes = before.nodes();
    let nodes = after.nodes();
    let n = old_nodes.len() as int;
    if hc == hp || hc == old_nodes[0].hash() {
        nodes == old_nodes
    } else {
        let p = match before.index_of(hp) {
            Some(p) => p,
            None => n,
        };
        let c = match before.index_of(hc) {
            Some(c) => c,
            None => if before.index_of(hp) is None {
                n + 1
            } else {
                n
            },
        };
        let root_children = if before.index_of(hp) is None {
            old_nodes[0].children().push(p as usize)
        } else {
            old_nodes[0].children()
        };
        let root_children = if p != 0 {
            without_item(root_children, c as usize)
        } else {
            root_children
        };
        &&& nodes.len() == n + (if before.index_of(hp) is None {
            1int
        } else {
            0int
        }) + (if before.index_of(hc) is None {
            1int
        } else {
            0int
        })
        &&& 0 <= p < nodes.len()
        &&& 0 < c < nodes.len()
        &&& p != c
        &&& nodes[p].hash() == hp
        &&& nodes[c].hash() == hc
        &&& before.index_of(hp) is None ==> nodes[p].data() == parent
        &&& before.index_of(hc) is None ==> nodes[c].data() == child
        &&& forall|i: int|
            0 <= i < n ==> (#[trigger] nodes[i]).data() == old_nodes[i].data() && nodes[i].hash()
                == old_nodes[i].hash() && nodes[i].intervals() == old_nodes[i].intervals()
        &&& forall|i: int| n <= i < nodes.len() ==> (#[trigger] nodes[i]).intervals().len() == 0
        &&& forall|i: int|
            0 <= i < nodes.len() ==> (#[trigger] nodes[i]).children() == (if i == p {
                with_item(
                    if i == 0 {
                        root_children
                    } else if i < n {
                        old_nodes[i].children()
                    } else {
                        Seq::empty()
                    },
                    c as usize,
                )
            } else if i == 0 {
                root_children
            } else if i < n {
                old_nodes[i].children()
            } else {
                Seq::empty()
            })
    }
}

impl MultiTree {
    /// The place of the node of an IRI; the node is made as a sub-node of
    /// the root if there is none.
#[verifier::rlimit(30)]
    fn find_or_add(&mut self, iri: &str, under_root: bool) -> (r: (usize, bool))
        requires
            old(self).wf(),
        ensures
            final(self).wf(),
            r.0 < final(self).nodes().len(),
            final(self).nodes()[r.0 as int].hash() == hash_of_text(iri@),
            r.1 == (old(self).index_of(hash_of_text(iri@)) is None),
            !r.1 ==> final(self).nodes() == old(self).nodes() && old(self).index_of(hash_of_text(iri@))
                == Some(r.0 as int),
            r.1 ==> r.0 == old(self).nodes().len()
                && final(self).nodes().len() == old(self).nodes().len() + 1
                && final(self).nodes()[r.0 as int].data() == iri@
                && final(self).nodes()[r.0 as int].children().len() == 0
                && final(self).nodes()[r.0 as int].intervals().len() == 0
                && (forall|i: int|
                    0 < i < old(self).nodes().len() ==> #[trigger] final(self).nodes()[i] == old(self).nodes()[i])
                && final(self).nodes()[0].data() == old(self).nodes()[0].data()
                && final(self).nodes()[0].hash() == old(self).nodes()[0].hash()
                && final(self).nodes()[0].intervals() == old(self).nodes()[0].intervals()
                && final(self).nodes()[0].children() == (if under_root {
                    old(self).nodes()[0].children().push(r.0)
                } else {
                    old(self).nodes()[0].children()
                }),
    {
        let hash = StrHash::new(iri);
        match self.find(hash) {
            Some(i) => (i, false),
            None => {
                let index: usize = self.nodes.len();
                self.nodes.push(
                    MultiTreeNode {
                        data: iri.to_owned(),
                        hash,
                        children: Vec::new(),
                        interval_nodes: Vec::new(),
                    },
                );
                if under_root {
                    proof {
                        assert(!self.nodes()[0].children().contains(index)) by {
                            if self.nodes()[0].children().contains(index) {
                                let k = choose|k: int|
                                    0 <= k < old(self).nodes()[0].children().len() && old(self).nodes()[0].children()[k] == index;
                                assert(old(self).nodes()[0].children()[k] < old(self).nodes().len());
                            }
                        }
                    }
                    self.nodes[0].children.push(index);
                    proof {
                        let list = old(self).nodes()[0].children();
                        assert(self.nodes()[0].children() == list.push(index));
                        assert forall|a: int, b: int|
                            0 <= a < list.len() + 1 && 0 <= b < list.len() + 1 && a
                                != b implies list.push(index)[a] != list.push(index)[b] by {
                            if a < list.len() && b < list.len() {
                                assert(list[a] != list[b]);
                            } else if a < list.len() {
                                assert(list.contains(list[a]));
                            } else {
                                assert(list.contains(list[b]));
                            }
                        }
                    }
                }
                proof {
                    assert forall|i: int, k: int|
                        0 <= i < self.nodes().len() && 0 <= k < self.nodes()[i].children().len() implies 0
                        < (#[trigger] self.nodes()[i].children()[k]) < self.nodes().len() by {
                        if i < index {
                            if i == 0 && under_root && k == old(self).nodes()[0].children().len() {
                            } else {
                                assert(self.nodes()[i].children()[k] == old(self).nodes()[i].children()[k]);
                            }
                        }
                    }
                    assert forall|i: int, j: int| 0 <= i < j < self.nodes().len() implies (
                    #[trigger] self.nodes()[i]).hash() != (#[trigger] self.nodes()[j]).hash() by {
                        if j < index {
                            assert(old(self).nodes()[i].hash() != old(self).nodes()[j].hash());
                        } else {
                            assert(old(self).nodes()[i].hash() != hash);
                        }
                    }
                }
                (index, true)
            },
        }
    }
}

/// A list without one of its items holds the other items, each once.
pub proof fn lemma_without_item(list: Seq<usize>, x: usize)
    requires
        list.no_duplicates(),
    ensures
        without_item(list, x).no_duplicates(),
        !without_item(list, x).contains(x),
        forall|y: usize| y != x ==> without_item(list, x).contains(y) == list.contains(y),
        list.contains(x) ==> without_item(list, x) == list.remove(list.index_of(x)),
{
    if list.contains(x) {
        let k = list.index_of(x);
        let after = list.remove(k);
        assert forall|a: int, b: int| 0 <= a < after.len() && 0 <= b < after.len() && a
            != b implies after[a] != after[b] by {
            let oa = if a < k { a } else { a + 1 };
            let ob = if b < k { b } else { b + 1 };
            assert(after[a] == list[oa]);
            assert(after[b] == list[ob]);
        }
        if after.contains(x) {
            let a = choose|a: int| 0 <= a < after.len() && after[a] == x;
            let oa = if a < k { a } else { a + 1 };
            assert(after[a] == list[oa]);
        }
        assert forall|y: usize| y != x implies after.contains(y) == list.contains(y) by {
            if after.contains(y) {
                let a = choose|a: int| 0 <= a < after.len() && after[a] == y;
                let oa = if a < k { a } else { a + 1 };
                assert(after[a] == list[oa]);
            }
            if list.contains(y) {
                let a = choose|a: int| 0 <= a < list.len() && list[a] == y;
                if a < k {
                    assert(after[a] == y);
                } else {
                    assert(after[a - 1] == y);
                }
            }
        }
    }
}

/// A list with one more item at its end holds nothing twice if it did not
/// hold that item.
proof fn lemma_with_item(list: Seq<usize>, x: usize)
    requires
        list.no_duplicates(),
    ensures
        with_item(list, x).no_duplicates(),
        with_item(list, x).contains(x),
        forall|y: usize| y != x ==> with_item(list, x).contains(y) == list.contains(y),
{
    if !list.contains(x) {
        let after = list.push(x);
        assert forall|a: int, b: int| 0 <= a < after.len() && 0 <= b < after.len() && a
            != b implies after[a] != after[b] by {
            if a < list.len() && b < list.len() {
                assert(list[a] != list[b]);
            } else if a < list.len() {
                assert(list.contains(list[a]));
            } else {
                assert(list.contains(list[b]));
            }
        }
        assert(after[list.len() as int] == x);
        assert forall|y: usize| y != x implies after.contains(y) == list.contains(y) by {
            if after.contains(y) {
                let a = choose|a: int| 0 <= a < after.len() && after[a] == y;
                assert(list[a] == y);
            }
            if list.contains(y) {
                let a = choose|a: int| 0 <= a < list.len() && list[a] == y;
                assert(after[a] == y);
            }
        }
    }
}

impl MultiTree {
    /// The places of the nodes of a taxonomy are numbers of the machine.
    pub proof fn lemma_nodes_fit(&self)
        ensures
            self.nodes().len() <= usize::MAX,
    {
        assert(self.nodes.len() == self.nodes@.len());
    }

    /// The node with a hash stands at one place only.
    pub proof fn lemma_index_of(&self, h: StrHash, i: int)
        requires
            self.wf(),
            0 <= i < self.nodes().len(),
            self.nodes()[i].hash() == h,
        ensures
            self.index_of(h) == Some(i),
    {
        let found = self.index_of(h)->Some_0;
        if found < i {
            assert(self.nodes()[found].hash() != self.nodes()[i].hash());
        } else if i < found {
            assert(self.nodes()[i].hash() != self.nodes()[found].hash());
        }
    }

    /// Whether `after` is `self` with the list of sub-nodes of one node
    /// replaced.
    pub open spec fn with_children(&self, after: &MultiTree, i: int, list: Seq<usize>) -> bool {
        &&& after.nodes().len() == self.nodes().len()
        &&& forall|j: int|
            0 <= j < self.nodes().len() && j != i ==> #[trigger] after.nodes()[j] == self.nodes()[j]
        &&& after.nodes()[i].data() == self.nodes()[i].data()
        &&& after.nodes()[i].hash() == self.nodes()[i].hash()
        &&& after.nodes()[i].intervals() == self.nodes()[i].intervals()
        &&& after.nodes()[i].children() == list
    }

    /// Replacing the sub-nodes of a node by a list of nodes other than the
    /// root, each once, keeps a taxonomy well formed.
    proof fn lemma_with_children(&self, after: &MultiTree, i: int, list: Seq<usize>)
        requires
            self.wf(),
            0 <= i < self.nodes().len(),
            self.with_children(after, i, list),
            list.no_duplicates(),
            forall|k: int| 0 <= k < list.len() ==> 0 < #[trigger] list[k] < self.nodes().len(),
        ensures
            after.wf(),
    {
        let nodes = after.nodes();
        assert forall|a: int| 0 <= a < nodes.len() implies (#[trigger] nodes[a]).hash()
            == hash_of_text(nodes[a].data()) by {
            assert(self.nodes()[a].hash() == hash_of_text(self.nodes()[a].data()));
        }
        assert forall|a: int, b: int| 0 <= a < b < nodes.len() implies (#[trigger] nodes[a]).hash()
            != (#[trigger] nodes[b]).hash() by {
            assert(self.nodes()[a].hash() != self.nodes()[b].hash());
        }
        assert forall|a: int, k: int|
            0 <= a < nodes.len() && 0 <= k < nodes[a].children().len() implies 0 < (
        #[trigger] nodes[a].children()[k]) < nodes.len() by {
            if a != i {
                assert(nodes[a].children()[k] == self.nodes()[a].children()[k]);
            }
        }
        assert forall|a: int| 0 <= a < nodes.len() implies (
        #[trigger] nodes[a]).children().no_duplicates() by {
            if a != i {
                assert(self.nodes()[a].children().no_duplicates());
            }
        }
    }

    /// Takes a node out of the sub-nodes of the root.
    fn detach_from_root(&mut self, c: usize)
        requires
            old(self).wf(),
        ensures
            final(self).wf(),
            old(self).with_children(
                final(self),
                0,
                without_item(old(self).nodes()[0].children(), c),
            ),
    {
        let ghost list = self.nodes()[0].children();
        proof {
            lemma_without_item(list, c);
        }
        match position_of(&self.nodes[0].children, c) {
            Some(k) => {
                proof {
                    assert(list.contains(c));
                    assert(list.index_of(c) == k) by {
                        let j = list.index_of(c);
                        if j != k {
                            assert(list[j] == list[k as int]);
                        }
                    }
                }
                let gone = self.nodes[0].children.remove(k);
            },
            None => {},
        }
        proof {
            let after = without_item(list, c);
            assert forall|k: int| 0 <= k < after.len() implies 0 < #[trigger] after[k] < old(self).nodes().len() by {
                assert(after.contains(after[k]));
                assert(list.contains(after[k]));
                let j = choose|j: int| 0 <= j < list.len() && list[j] == after[k];
                assert(0 < old(self).nodes()[0].children()[j] < old(self).nodes().len());
            }
            old(self).lemma_with_children(self, 0, after);
        }
    }

    /// Puts a node among the sub-nodes of another, unless it is there.
    fn attach(&mut self, p: usize, c: usize)
        requires
            old(self).wf(),
            p < old(self).nodes().len(),
            0 < c < old(self).nodes().len(),
        ensures
            final(self).wf(),
            old(self).with_children(
                final(self),
                p as int,
                with_item(old(self).nodes()[p as int].children(), c),
            ),
    {
        let ghost list = self.nodes()[p as int].children();
        proof {
            lemma_with_item(list, c);
        }
        match position_of(&self.nodes[p].children, c) {
            Some(_) => {},
            None => {
                self.nodes[p].children.push(c);
            },
        }
        proof {
            let after = with_item(list, c);
            assert forall|k: int| 0 <= k < after.len() implies 0 < #[trigger] after[k] < old(self).nodes().len() by {
                if k < list.len() {
                    assert(after[k] == list[k]);
                    assert(0 < old(self).nodes()[p as int].children()[k] < old(self).nodes().len());
                }
            }
            old(self).lemma_with_children(self, p as int, after);
        }
    }

    /// Records that the class or property `child` is a direct sub-class or
    /// sub-property of `parent`. A node that is not known yet is made; a
    /// parent that is made is put under the root, and a child that gets a
    /// parent other than the root leaves the root. Nothing is recorded of
    /// a node and itself, nor of the root as a child. The labels of the
    /// nodes stay as they are, and are out of date from then on.
#[verifier::rlimit(30)]
    pub fn insert(&mut self, child: &str, parent: &str)
        requires
            old(self).wf(),
        ensures
            final(self).wf(),
            insertion(*old(self), *final(self), child@, parent@),
    {
        let hc = StrHash::new(child);
        let hp = StrHash::new(parent);
        if hc.hash == hp.hash || hc.hash == self.nodes[0].hash.hash {
            return ;
        }
        let ghost before = *self;
        let (p, parent_new) = self.find_or_add(parent, true);
        let ghost one = *self;
        let (c, child_new) = self.find_or_add(child, false);
        let ghost two = *self;
        proof {
            two.lemma_index_of(hp, p as int);
            lemma_second_node(before, one, two, hp, hc, p as int, c as int);
        }
        if p != 0 {
            self.detach_from_root(c);
        }
        let ghost three = *self;
        self.attach(p, c);
        proof {
            lemma_insertion(before, one, two, three, *self, child@, parent@, p as int, c as int);
        }
    }
}

/// The place of the second of two nodes that are looked up or made one
/// after the other.
proof fn lemma_second_node(
    before: MultiTree,
    one: MultiTree,
    two: MultiTree,
    hp: StrHash,
    hc: StrHash,
    p: int,
    c: int,
)
    requires
        before.wf(),
        one.wf(),
        two.wf(),
        hp != hc,
        hc != before.nodes()[0].hash(),
        0 <= p < one.nodes().len(),
        one.nodes()[p].hash() == hp,
        before.index_of(hp) is Some ==> one.nodes() == before.nodes(),
        before.index_of(hp) is None ==> p == before.nodes().len() && one.nodes().len()
            == before.nodes().len() + 1 && (forall|i: int|
            0 <= i < before.nodes().len() ==> (#[trigger] one.nodes()[i]).hash()
                == before.nodes()[i].hash()),
        0 <= c < two.nodes().len(),
        two.nodes()[c].hash() == hc,
        two.nodes()[0].hash() == before.nodes()[0].hash(),
        one.index_of(hc) is Some ==> one.index_of(hc) == Some(c),
        one.index_of(hc) is None ==> c == one.nodes().len(),
    ensures
        c != 0,
        c != p,
        one.index_of(hc) is Some == before.index_of(hc) is Some,
        before.index_of(hc) is Some ==> before.index_of(hc) == Some(c),
{
    if before.index_of(hc) is Some {
        let ci = before.index_of(hc)->Some_0;
        assert(one.nodes()[ci].hash() == hc);
        one.lemma_index_of(hc, ci);
    } else if one.index_of(hc) is Some {
        let ci = one.index_of(hc)->Some_0;
        if ci < before.nodes().len() {
            assert(before.nodes()[ci].hash() == hc);
        }
    }
}

/// The four steps of an insertion make an insertion.
#[verifier::rlimit(30)]
proof fn lemma_insertion(
    before: MultiTree,
    one: MultiTree,
    two: MultiTree,
    three: MultiTree,
    after: MultiTree,
    child: Seq<char>,
    parent: Seq<char>,
    p: int,
    c: int,
)
    requires
        before.wf(),
        hash_of_text(child) != hash_of_text(parent),
        hash_of_text(child) != before.nodes()[0].hash(),
        0 <= p < one.nodes().len(),
        one.nodes()[p].hash() == hash_of_text(parent),
        before.index_of(hash_of_text(parent)) is Some ==> one.nodes() == before.nodes()
            && before.index_of(hash_of_text(parent)) == Some(p),
        before.index_of(hash_of_text(parent)) is None ==> p == before.nodes().len()
            && one.nodes().len() == before.nodes().len() + 1 && one.nodes()[p].data() == parent
            && one.nodes()[p].children().len() == 0 && one.nodes()[p].intervals().len() == 0
            && (forall|i: int|
            0 < i < before.nodes().len() ==> #[trigger] one.nodes()[i] == before.nodes()[i])
            && one.nodes()[0].data() == before.nodes()[0].data() && one.nodes()[0].hash()
            == before.nodes()[0].hash() && one.nodes()[0].intervals()
            == before.nodes()[0].intervals() && one.nodes()[0].children()
            == before.nodes()[0].children().push(p as usize),
        0 < c < two.nodes().len(),
        c != p,
        two.nodes()[c].hash() == hash_of_text(child),
        before.index_of(hash_of_text(child)) is Some ==> two.nodes() == one.nodes()
            && before.index_of(hash_of_text(child)) == Some(c),
        before.index_of(hash_of_text(child)) is None ==> c == one.nodes().len()
            && two.nodes().len() == one.nodes().len() + 1 && two.nodes()[c].data() == child
            && two.nodes()[c].children().len() == 0 && two.nodes()[c].intervals().len() == 0
            && (forall|i: int|
            0 < i < one.nodes().len() ==> #[trigger] two.nodes()[i] == one.nodes()[i])
            && two.nodes()[0].data() == one.nodes()[0].data() && two.nodes()[0].hash()
            == one.nodes()[0].hash() && two.nodes()[0].intervals() == one.nodes()[0].intervals()
            && two.nodes()[0].children() == one.nodes()[0].children(),
        p != 0 ==> two.with_children(&three, 0, without_item(two.nodes()[0].children(), c as usize)),
        p == 0 ==> three == two,
        three.with_children(&after, p, with_item(three.nodes()[p].children(), c as usize)),
    ensures
        insertion(before, after, child, parent),
{
    let hc = hash_of_text(child);
    let hp = hash_of_text(parent);
    let n = before.nodes().len() as int;
    let nodes = after.nodes();
    assert forall|i: int| 0 <= i < n implies (#[trigger] nodes[i]).data() == before.nodes()[i].data()
        && nodes[i].hash() == before.nodes()[i].hash() && nodes[i].intervals()
        == before.nodes()[i].intervals() by {
        assert(after.nodes()[i].data() == three.nodes()[i].data());
        assert(three.nodes()[i].data() == two.nodes()[i].data());
        if i > 0 {
            assert(two.nodes()[i] == one.nodes()[i]);
            assert(one.nodes()[i] == before.nodes()[i]);
        }
    }
    assert forall|i: int| n <= i < nodes.len() implies (#[trigger] nodes[i]).intervals().len()
        == 0 by {
        assert(after.nodes()[i].intervals() == three.nodes()[i].intervals());
        assert(three.nodes()[i].intervals() == two.nodes()[i].intervals());
        if i < one.nodes().len() {
            assert(two.nodes()[i] == one.nodes()[i]);
        }
    }
    let root_children = if before.index_of(hp) is None {
        before.nodes()[0].children().push(p as usize)
    } else {
        before.nodes()[0].children()
    };
    assert(two.nodes()[0].children() == root_children);
    let root_children = if p != 0 {
        without_item(root_children, c as usize)
    } else {
        root_children
    };
    assert(three.nodes()[0].children() == root_children);
    assert forall|i: int| 0 <= i < nodes.len() implies (#[trigger] nodes[i]).children() == (if i
        == p {
        with_item(
            if i == 0 {
                root_children
            } else if i < n {
                before.nodes()[i].children()
            } else {
                Seq::empty()
            },
            c as usize,
        )
    } else if i == 0 {
        root_children
    } else if i < n {
        before.nodes()[i].children()
    } else {
        Seq::empty()
    }) by {
        if i != p {
            assert(after.nodes()[i] == three.nodes()[i]);
        }
        if i != 0 {
            assert(three.nodes()[i] == two.nodes()[i]);
            if i < one.nodes().len() {
                assert(two.nodes()[i] == one.nodes()[i]);
                if i < n {
                    assert(one.nodes()[i] == before.nodes()[i]);
                } else {
                    assert(one.nodes()[i].children() =~= Seq::<usize>::empty());
                }
            } else {
                assert(two.nodes()[i].children() =~= Seq::<usize>::empty());
            }
        }
    }
    assert(nodes[p].hash() == hp);
    assert(nodes[c].hash() == hc);
}

impl MultiTree {
    /// The lists of sub-nodes of the nodes.
    pub open spec fn shape(&self) -> Seq<Seq<usize>> {
        Seq::new(self.nodes().len(), |i: int| self.nodes()[i].children())
    }

    /// Taxonomies with the same sub-relations have the same shape.
    pub proof fn lemma_same_shape(&self, other: &MultiTree)
        requires
            self.same_graph(other),
        ensures
            self.shape() == other.shape(),
    {
        assert(self.shape() =~= other.shape());
    }

    /// Whether two taxonomies have the same nodes and sub-relations.
    pub open spec fn same_graph(&self, other: &MultiTree) -> bool {
        &&& other.nodes().len() == self.nodes().len()
        &&& forall|i: int|
            0 <= i < self.nodes().len() ==> (#[trigger] other.nodes()[i]).data()
                == self.nodes()[i].data() && other.nodes()[i].hash() == self.nodes()[i].hash()
                && other.nodes()[i].children() == self.nodes()[i].children()
    }

    /// Whether `after` has the labels of `self`, and maybe more behind
    /// them.
    pub open spec fn labels_extend(&self, after: &MultiTree) -> bool {
        &&& after.nodes().len() == self.nodes().len()
        &&& forall|i: int|
            0 <= i < self.nodes().len() ==> self.nodes()[i].intervals().len() <= (
            #[trigger] after.nodes()[i]).intervals().len()
        &&& forall|i: int, k: int|
            0 <= i < self.nodes().len() && 0 <= k < self.nodes()[i].intervals().len()
                ==> #[trigger] after.nodes()[i].intervals()[k] == self.nodes()[i].intervals()[k]
    }

    /// Whether node `i` has a label `k`.
    pub open spec fn has_label(&self, i: int, k: int) -> bool {
        0 <= i < self.nodes().len() && 0 <= k < self.nodes()[i].intervals().len()
    }

    /// Label `k` of node `i`.
    pub open spec fn label(&self, i: int, k: int) -> IntervalNode {
        self.nodes()[i].intervals()[k]
    }

    /// Whether no node has a label.
    pub open spec fn unlabelled(&self) -> bool {
        forall|i: int| 0 <= i < self.nodes().len() ==> (#[trigger] self.nodes()[i]).intervals().len() == 0
    }

    /// Takes the labels off every node.
    pub fn clear_labels(&mut self)
        requires
            old(self).wf(),
        ensures
            final(self).wf(),
            old(self).same_graph(final(self)),
            final(self).unlabelled(),
    {
        let mut i: usize = 0;
        while i < self.nodes.len()
            invariant
                i <= self.nodes@.len(),
                self.wf(),
                old(self).same_graph(self),
                forall|j: int| 0 <= j < i ==> (#[trigger] self.nodes()[j]).intervals().len() == 0,
            decreases self.nodes@.len() - i,
        {
            let ghost before = *self;
            self.nodes[i].interval_nodes.clear();
            proof {
                before.lemma_same_graph_wf(self);
            }
            i = i + 1;
        }
    }

    /// A taxonomy with the nodes and sub-relations of a well-formed one is
    /// well formed.
    pub proof fn lemma_same_graph_wf(&self, after: &MultiTree)
        requires
            self.wf(),
            self.same_graph(after),
        ensures
            after.wf(),
    {
        let nodes = after.nodes();
        assert forall|a: int| 0 <= a < nodes.len() implies (#[trigger] nodes[a]).hash()
            == hash_of_text(nodes[a].data()) by {
            assert(self.nodes()[a].hash() == hash_of_text(self.nodes()[a].data()));
        }
        assert forall|a: int, b: int| 0 <= a < b < nodes.len() implies (#[trigger] nodes[a]).hash()
            != (#[trigger] nodes[b]).hash() by {
            assert(self.nodes()[a].hash() != self.nodes()[b].hash());
        }
        assert forall|a: int, k: int|
            0 <= a < nodes.len() && 0 <= k < nodes[a].children().len() implies 0 < (
        #[trigger] nodes[a].children()[k]) < nodes.len() by {
            assert(nodes[a].children()[k] == self.nodes()[a].children()[k]);
        }
        assert forall|a: int| 0 <= a < nodes.len() implies (
        #[trigger] nodes[a]).children().no_duplicates() by {
            assert(self.nodes()[a].children().no_duplicates());
        }
    }
}

/// Whether two labels are apart, or one lies strictly within the other on
/// a deeper layer.
pub open spec fn nested_or_apart(a: IntervalNode, b: IntervalNode) -> bool {
    ||| a.end < b.start
    ||| b.end < a.start
    ||| (a.start < b.start && b.end < a.end && a.layer < b.layer)
    ||| (b.start < a.start && a.end < b.end && b.layer < a.layer)
}

/// Whether the label `x` is that of a visit that came straight from the
/// visit of the label `y`.
pub open spec fn child_label(x: IntervalNode, y: IntervalNode) -> bool {
    y.start < x.start && x.end < y.end && y.layer + 1 == x.layer
}

/// Where labelling the visit of the node `v` leaves a counter that it
/// finds at `c0`, or why it fails: the chain of sub-relations that it has
/// come down has used up `fuel`, or the counter is full when the node is
/// entered or left. The sub-nodes are visited first to last, and the
/// first failure is the one that is given.
pub open spec fn visit_end(shape: Seq<Seq<usize>>, v: int, fuel: nat, c0: int) -> Result<
    int,
    TaxonomyError,
>
    decreases fuel, 0nat,
{
    if fuel == 0 || !(0 <= v < shape.len()) {
        Err(TaxonomyError::TooDeep)
    } else if c0 >= u64::MAX {
        Err(TaxonomyError::TooLarge)
    } else {
        match list_end(shape, shape[v], (fuel - 1) as nat, c0 + 1) {
            Err(e) => Err(e),
            Ok(c) => if c >= u64::MAX {
                Err(TaxonomyError::TooLarge)
            } else {
                Ok(c + 1)
            },
        }
    }
}

/// Where labelling the visits of the nodes of a list, first to last,
/// leaves a counter that it finds at `c0`, or why it fails.
pub open spec fn list_end(shape: Seq<Seq<usize>>, list: Seq<usize>, fuel: nat, c0: int) -> Result<
    int,
    TaxonomyError,
>
    decreases fuel, 1 + list.len(),
{
    if list.len() == 0 {
        Ok(c0)
    } else {
        match list_end(shape, list.drop_last(), fuel, c0) {
            Err(e) => Err(e),
            Ok(c) => visit_end(shape, list.last() as int, fuel, c),
        }
    }
}

/// A failure at the first nodes of a list is the failure of the list.
pub proof fn lemma_list_end_stops(
    shape: Seq<Seq<usize>>,
    list: Seq<usize>,
    fuel: nat,
    c0: int,
    j: int,
)
    requires
        0 <= j <= list.len(),
        list_end(shape, list.subrange(0, j), fuel, c0) is Err,
    ensures
        list_end(shape, list, fuel, c0) == list_end(shape, list.subrange(0, j), fuel, c0),
    decreases list.len() - j,
{
    if j < list.len() {
        let next = list.subrange(0, j + 1);
        assert(next.drop_last() =~= list.subrange(0, j));
        lemma_list_end_stops(shape, list, fuel, c0, j + 1);
    } else {
        assert(list.subrange(0, j) =~= list);
    }
}

/// Whether a label names the node `p` as the node from which its visit
/// came.
pub open spec fn parent_is(x: IntervalNode, p: int) -> bool {
    x.parent matches Some(q) && q == p
}

impl MultiTree {
    /// Whether every label is an interval below `counter`.
    pub open spec fn labels_below(&self, counter: int) -> bool {
        forall|i: int, k: int|
            self.has_label(i, k) ==> (#[trigger] self.label(i, k)).start < self.label(i, k).end
                < counter
    }

    /// Whether any two labels are apart or nested, the inner one on a
    /// deeper layer.
    #[verifier::opaque]
    pub open spec fn laminar(&self) -> bool {
        forall|i: int, k: int, j: int, m: int|
            self.has_label(i, k) && self.has_label(j, m) && (i != j || k != m) ==> nested_or_apart(
                #[trigger] self.label(i, k),
                #[trigger] self.label(j, m),
            )
    }

    /// Whether a label of a node names a parent of the node of which some
    /// label is directly above it.
    pub open spec fn has_parent_label(&self, i: int, k: int) -> bool {
        match self.label(i, k).parent {
            Some(p) => self.edge(p as int, i) && exists|m: int|
                self.has_label(p as int, m) && child_label(
                    self.label(i, k),
                    #[trigger] self.label(p as int, m),
                ),
            None => false,
        }
    }

    /// Whether every sub-node of a node has a label directly below a label
    /// of the node.
    pub open spec fn children_covered(&self, j: int, m: int) -> bool {
        forall|c: int| #[trigger]
            self.edge(j, c) ==> exists|k: int|
                self.has_label(c, k) && parent_is(self.label(c, k), j) && child_label(
                    #[trigger] self.label(c, k),
                    self.label(j, m),
                )
    }

    /// What a visit of the node `v` on the layer `layer`, which found the
    /// counter at `c0` and left it at `c1`, has done: the node has a new
    /// last label from `c0` to `c1 - 1`; every other new label lies
    /// strictly within it on a deeper layer and is directly below a label
    /// of its parent; the sub-nodes of the node of every new label have
    /// labels directly below it; and all labels are apart or nested.
    pub open spec fn visited(
        &self,
        after: &MultiTree,
        v: usize,
        parent: Option<usize>,
        layer: u16,
        c0: u64,
        c1: u64,
    ) -> bool {
        let last = after.nodes()[v as int].intervals().len() - 1;
        &&& self.labels_extend(after)
        &&& c0 < c1 - 1
        &&& after.labels_below(c1 as int)
        &&& after.laminar()
        &&& self.nodes()[v as int].intervals().len() <= last
        &&& after.label(v as int, last) == (IntervalNode {
            start: c0,
            end: (c1 - 1) as u64,
            layer,
            parent,
        })
        &&& forall|i: int, k: int|
            after.has_label(i, k) && k >= self.nodes()[i].intervals().len() ==> after.children_covered(
                i,
                k,
            ) && ((i == v && k == last) || (c0 < (#[trigger] after.label(i, k)).start && after.label(
                i,
                k,
            ).end < c1 - 1 && after.label(i, k).layer > layer && after.has_parent_label(i, k)))
    }

    /// A parent's label that is directly above a label stays so when
    /// labels are added.
    proof fn lemma_parent_label_extends(&self, after: &MultiTree, i: int, k: int)
        requires
            self.same_graph(after),
            self.labels_extend(after),
            self.has_label(i, k),
            self.has_parent_label(i, k),
        ensures
            after.has_parent_label(i, k),
    {
        let p = self.label(i, k).parent->Some_0 as int;
        let m = choose|m: int|
            self.has_label(p, m) && child_label(self.label(i, k), #[trigger] self.label(p, m));
        assert(after.label(p, m) == self.label(p, m));
        assert(after.has_label(p, m));
        assert(after.label(i, k) == self.label(i, k));
        self.lemma_edge_same(after, p, i);
    }

    /// Taxonomies with the same sub-relations have the same edges.
    proof fn lemma_edge_same(&self, after: &MultiTree, p: int, c: int)
        requires
            self.same_graph(after),
        ensures
            self.edge(p, c) == after.edge(p, c),
    {
        if 0 <= p < self.nodes().len() {
            assert(after.nodes()[p].children() == self.nodes()[p].children());
        }
    }

    /// The labels of the sub-nodes that are directly below a label stay so
    /// when labels are added.
    proof fn lemma_children_covered_extends(&self, after: &MultiTree, j: int, m: int)
        requires
            self.same_graph(after),
            self.labels_extend(after),
            self.has_label(j, m),
            self.children_covered(j, m),
        ensures
            after.children_covered(j, m),
    {
        assert forall|c: int| #[trigger] after.edge(j, c) implies exists|k: int|
            after.has_label(c, k) && parent_is(after.label(c, k), j) && child_label(
                #[trigger] after.label(c, k),
                after.label(j, m),
            ) by {
            self.lemma_edge_same(after, j, c);
            assert(self.edge(j, c));
            let k = choose|k: int|
                self.has_label(c, k) && parent_is(self.label(c, k), j) && child_label(
                    #[trigger] self.label(c, k),
                    self.label(j, m),
                );
            assert(after.label(c, k) == self.label(c, k));
            assert(after.has_label(c, k));
            assert(after.label(j, m) == self.label(j, m));
        }
    }

    /// Adding labels after labels were added is adding labels.
    proof fn lemma_labels_extend_twice(&self, mid: &MultiTree, after: &MultiTree)
        requires
            self.labels_extend(mid),
            mid.labels_extend(after),
        ensures
            self.labels_extend(after),
    {
        assert forall|i: int| 0 <= i < self.nodes().len() implies self.nodes()[i].intervals().len()
            <= (#[trigger] after.nodes()[i]).intervals().len() by {
            assert(self.nodes()[i].intervals().len() <= mid.nodes()[i].intervals().len());
        }
        assert forall|i: int, k: int|
            0 <= i < self.nodes().len() && 0 <= k < self.nodes()[i].intervals().len() implies #[trigger] after.nodes()[i].intervals()[k]
            == self.nodes()[i].intervals()[k] by {
            assert(self.nodes()[i].intervals().len() <= mid.nodes()[i].intervals().len());
            assert(mid.nodes()[i].intervals()[k] == self.nodes()[i].intervals()[k]);
        }
    }

    /// The same nodes and sub-relations twice over.
    proof fn lemma_same_graph_twice(&self, mid: &MultiTree, after: &MultiTree)
        requires
            self.same_graph(mid),
            mid.same_graph(after),
        ensures
            self.same_graph(after),
    {
        assert forall|i: int| 0 <= i < self.nodes().len() implies (#[trigger] after.nodes()[i]).data()
            == self.nodes()[i].data() && after.nodes()[i].hash() == self.nodes()[i].hash()
            && after.nodes()[i].children() == self.nodes()[i].children() by {
            assert(mid.nodes()[i].data() == self.nodes()[i].data());
        }
    }

    /// Two labels of a taxonomy whose labels are apart or nested are apart
    /// or nested.
    pub proof fn lemma_laminar_pair(&self, i: int, k: int, j: int, m: int)
        requires
            self.laminar(),
            self.has_label(i, k),
            self.has_label(j, m),
            i != j || k != m,
        ensures
            nested_or_apart(self.label(i, k), self.label(j, m)),
    {
        reveal(MultiTree::laminar);
    }

    /// Whether a label is new since `self` and waits for the label of the
    /// node `v`, or is directly below a label of its parent.
    pub open spec fn settled_or_waiting(&self, cur: &MultiTree, v: int, layer: int, i: int, k: int) -> bool {
        cur.has_parent_label(i, k) || (parent_is(cur.label(i, k), v) && self.edge(v, i)
            && cur.label(i, k).layer == layer + 1)
    }

    /// Whether sub-node number `cj` of the node `v` has a new label that
    /// waits for the label of `v`.
    pub open spec fn child_visited(&self, cur: &MultiTree, v: int, layer: int, cj: int) -> bool {
        let c = self.nodes()[v].children()[cj] as int;
        exists|k: int|
            cur.has_label(c, k) && k >= self.nodes()[c].intervals().len() && parent_is(
                #[trigger] cur.label(c, k),
                v,
            ) && cur.label(c, k).layer == layer + 1
    }

    /// What a visit of the node `v` has done when the first `done` of its
    /// sub-nodes are visited and the counter stands at `counter`: every
    /// new label lies strictly behind `c0` on a deeper layer, and is
    /// directly below a label of its parent or waits for the label of `v`.
    pub open spec fn visiting(
        &self,
        cur: &MultiTree,
        v: usize,
        layer: u16,
        c0: u64,
        counter: u64,
        done: int,
    ) -> bool {
        &&& self.same_graph(cur)
        &&& self.labels_extend(cur)
        &&& c0 < counter
        &&& cur.labels_below(counter as int)
        &&& cur.laminar()
        &&& forall|i: int, k: int|
            cur.has_label(i, k) && k >= self.nodes()[i].intervals().len() ==> cur.children_covered(
                i,
                k,
            ) && c0 < (#[trigger] cur.label(i, k)).start && cur.label(i, k).layer > layer
                && self.settled_or_waiting(cur, v as int, layer as int, i, k)
        &&& forall|cj: int| 0 <= cj < done ==> #[trigger] self.child_visited(cur, v as int, layer as int, cj)
    }

    /// The state of a visit after one more sub-node was visited.
#[verifier::rlimit(30)]
    proof fn lemma_visit_step(
        &self,
        mid: &MultiTree,
        after: &MultiTree,
        v: usize,
        layer: u16,
        c0: u64,
        cm0: u64,
        cm1: u64,
        done: int,
    )
        requires
            self.wf(),
            v < self.nodes().len(),
            layer < u16::MAX,
            0 <= done < self.nodes()[v as int].children().len(),
            self.visiting(mid, v, layer, c0, cm0, done),
            mid.same_graph(after),
            mid.visited(
                after,
                self.nodes()[v as int].children()[done],
                Some(v),
                (layer + 1) as u16,
                cm0,
                cm1,
            ),
        ensures
            self.visiting(after, v, layer, c0, cm1, done + 1),
    {
        let child = self.nodes()[v as int].children()[done] as int;
        assert(0 < self.nodes()[v as int].children()[done] < self.nodes().len());
        self.lemma_same_graph_twice(mid, after);
        self.lemma_labels_extend_twice(mid, after);
        assert(self.edge(v as int, child));
        let last = after.nodes()[child].intervals().len() - 1;
        assert forall|i: int, k: int|
            after.has_label(i, k) && k >= self.nodes()[i].intervals().len() implies after.children_covered(
            i,
            k,
        ) && c0 < (#[trigger] after.label(i, k)).start && after.label(i, k).layer > layer
            && self.settled_or_waiting(after, v as int, layer as int, i, k) by {
            if k < mid.nodes()[i].intervals().len() {
                assert(mid.has_label(i, k));
                assert(after.label(i, k) == mid.label(i, k));
                mid.lemma_children_covered_extends(after, i, k);
                assert(self.settled_or_waiting(mid, v as int, layer as int, i, k));
                if mid.has_parent_label(i, k) {
                    mid.lemma_parent_label_extends(after, i, k);
                }
            } else {
                if i == child && k == last {
                    assert(parent_is(after.label(i, k), v as int));
                }
            }
        }
        assert forall|cj: int| 0 <= cj < done + 1 implies #[trigger] self.child_visited(
            after,
            v as int,
            layer as int,
            cj,
        ) by {
            let c = self.nodes()[v as int].children()[cj] as int;
            if cj < done {
                assert(self.child_visited(mid, v as int, layer as int, cj));
                let k = choose|k: int|
                    mid.has_label(c, k) && k >= self.nodes()[c].intervals().len() && parent_is(
                        #[trigger] mid.label(c, k),
                        v as int,
                    ) && mid.label(c, k).layer == layer + 1;
                assert(after.label(c, k) == mid.label(c, k));
                assert(after.has_label(c, k));
            } else {
                assert(after.has_label(c, last));
                assert(parent_is(after.label(c, last), v as int));
            }
        }
    }

    /// The state of a visit after the node itself got its label.
#[verifier::rlimit(30)]
    proof fn lemma_visit_close(
        &self,
        cur: &MultiTree,
        fin: &MultiTree,
        v: usize,
        parent: Option<usize>,
        layer: u16,
        c0: u64,
        counter: u64,
    )
        requires
            self.wf(),
            v < self.nodes().len(),
            counter < u64::MAX,
            self.labels_below(c0 as int),
            self.visiting(cur, v, layer, c0, counter, self.nodes()[v as int].children().len() as int),
            cur.same_graph(fin),
            fin.nodes().len() == cur.nodes().len(),
            forall|i: int|
                0 <= i < cur.nodes().len() && i != v ==> (#[trigger] fin.nodes()[i]).intervals()
                    == cur.nodes()[i].intervals(),
            fin.nodes()[v as int].intervals() == cur.nodes()[v as int].intervals().push(
                IntervalNode { start: c0, end: counter, layer, parent },
            ),
        ensures
            self.visited(fin, v, parent, layer, c0, (counter + 1) as u64),
    {
        let top = IntervalNode { start: c0, end: counter, layer, parent };
        let last = fin.nodes()[v as int].intervals().len() - 1;
        reveal(MultiTree::laminar);
        assert(fin.label(v as int, last) == top);
        assert(cur.labels_extend(fin));
        self.lemma_labels_extend_twice(cur, fin);
        self.lemma_same_graph_twice(cur, fin);
        assert forall|i: int, k: int| fin.has_label(i, k) implies (#[trigger] fin.label(i, k)).start
            < fin.label(i, k).end < counter + 1 by {
            if !(i == v && k == last) {
                assert(cur.has_label(i, k));
                assert(fin.label(i, k) == cur.label(i, k));
            }
        }
        assert forall|i: int, k: int|
            fin.has_label(i, k) && !(i == v && k == last) implies nested_or_apart(
            top,
            #[trigger] fin.label(i, k),
        ) && cur.has_label(i, k) && fin.label(i, k) == cur.label(i, k) by {
            assert(cur.has_label(i, k));
            assert(fin.label(i, k) == cur.label(i, k));
            if k < self.nodes()[i].intervals().len() {
                assert(self.has_label(i, k));
                assert(cur.label(i, k) == self.label(i, k));
                assert(self.label(i, k).end < c0);
            } else {
                assert(c0 < cur.label(i, k).start);
                assert(cur.label(i, k).end < counter);
            }
        }
        assert forall|i: int, k: int, j: int, m: int|
            fin.has_label(i, k) && fin.has_label(j, m) && (i != j || k != m) implies nested_or_apart(
            #[trigger] fin.label(i, k),
            #[trigger] fin.label(j, m),
        ) by {
            if i == v && k == last {
            } else if j == v && m == last {
            } else {
                assert(cur.has_label(i, k) && cur.has_label(j, m));
                assert(nested_or_apart(cur.label(i, k), cur.label(j, m)));
            }
        }
        assert(fin.children_covered(v as int, last)) by {
            assert forall|c: int| #[trigger] fin.edge(v as int, c) implies exists|k: int|
                fin.has_label(c, k) && parent_is(fin.label(c, k), v as int) && child_label(
                    #[trigger] fin.label(c, k),
                    fin.label(v as int, last),
                ) by {
                self.lemma_edge_same(fin, v as int, c);
                let list = self.nodes()[v as int].children();
                let cj = choose|cj: int| 0 <= cj < list.len() && #[trigger] list[cj] == c;
                assert(self.child_visited(cur, v as int, layer as int, cj));
                let k = choose|k: int|
                    cur.has_label(c, k) && k >= self.nodes()[c].intervals().len() && parent_is(
                        #[trigger] cur.label(c, k),
                        v as int,
                    ) && cur.label(c, k).layer == layer + 1;
                assert(fin.has_label(c, k));
                assert(c != v || k != last);
                assert(fin.label(c, k) == cur.label(c, k));
                assert(c0 < cur.label(c, k).start);
                assert(cur.label(c, k).end < counter);
            }
        }
        assert forall|i: int, k: int|
            fin.has_label(i, k) && k >= self.nodes()[i].intervals().len() implies fin.children_covered(
            i,
            k,
        ) && ((i == v && k == last) || (c0 < (#[trigger] fin.label(i, k)).start && fin.label(
            i,
            k,
        ).end < counter && fin.label(i, k).layer > layer && fin.has_parent_label(i, k))) by {
            if !(i == v && k == last) {
                assert(cur.has_label(i, k));
                assert(fin.label(i, k) == cur.label(i, k));
                cur.lemma_children_covered_extends(fin, i, k);
                assert(self.settled_or_waiting(cur, v as int, layer as int, i, k));
                if cur.has_parent_label(i, k) {
                    cur.lemma_parent_label_extends(fin, i, k);
                } else {
                    assert(fin.has_label(v as int, last));
                    assert(child_label(fin.label(i, k), fin.label(v as int, last)));
                    self.lemma_edge_same(fin, v as int, i);
                }
            }
        }
    }

}

/// One visit that is under way: the node, how many of its sub-nodes are
/// visited, and the count at which the node was entered. The layer of the
/// visit is its place among the visits that are under way.
#[derive(Clone, Copy)]
struct Visit {
    node: usize,
    done: usize,
    start: u64,
}

/// Whether a visit that is under way is one of a node of the taxonomy
/// that the walk began with, and `befores[i]` the taxonomy as the visit
/// found it.
spec fn visit_sound(
    base: MultiTree,
    befores: Seq<MultiTree>,
    visits: Seq<Visit>,
    i: int,
) -> bool {
    let f = visits[i];
    &&& f.node < base.nodes().len()
    &&& f.done <= base.nodes()[f.node as int].children().len()
    &&& f.start < u64::MAX
    &&& befores[i].wf()
    &&& base.same_graph(&befores[i])
    &&& befores[i].labels_below(f.start as int)
}

/// Whether a visit that is under way waits for the visit behind it: that
/// one is the visit of its next sub-node, and began where the visits of
/// the sub-nodes before it had ended.
spec fn visit_linked(
    base: MultiTree,
    befores: Seq<MultiTree>,
    visits: Seq<Visit>,
    i: int,
) -> bool {
    let f = visits[i];
    let g = visits[i + 1];
    let list = base.nodes()[f.node as int].children();
    &&& f.done < list.len()
    &&& list[f.done as int] == g.node
    &&& befores[i].visiting(&befores[i + 1], f.node, i as u16, f.start, g.start, f.done as int)
    &&& list_end(
        base.shape(),
        list.subrange(0, f.done as int),
        (MAX_DEPTH - i - 1) as nat,
        f.start + 1,
    ) == Ok::<int, TaxonomyError>(g.start as int)
}

/// Whether the visits that are under way are a chain from the root, each
/// waiting for the next.
spec fn visits_sound(base: MultiTree, befores: Seq<MultiTree>, visits: Seq<Visit>) -> bool {
    &&& visits.len() == befores.len()
    &&& visits.len() <= MAX_DEPTH
    &&& forall|i: int| 0 <= i < visits.len() ==> #[trigger] visit_sound(base, befores, visits, i)
    &&& forall|i: int| 0 <= i < visits.len() - 1 ==> #[trigger] visit_linked(base, befores, visits, i)
    &&& visits.len() > 0 ==> visits[0].node == 0 && visits[0].start == 0
}

/// The failure of a visit that is under way is the failure of the walk.
proof fn lemma_walk_fails(
    base: MultiTree,
    befores: Seq<MultiTree>,
    visits: Seq<Visit>,
    i: int,
    e: TaxonomyError,
)
    requires
        visits_sound(base, befores, visits),
        0 <= i < visits.len(),
        visit_end(
            base.shape(),
            visits[i].node as int,
            (MAX_DEPTH - i) as nat,
            visits[i].start as int,
        ) == Err::<int, TaxonomyError>(e),
    ensures
        visit_end(base.shape(), 0, MAX_DEPTH as nat, 0) == Err::<int, TaxonomyError>(e),
    decreases i,
{
    if i > 0 {
        let f = visits[i - 1];
        let g = visits[i];
        let shape = base.shape();
        let list = base.nodes()[f.node as int].children();
        let below = (MAX_DEPTH - i) as nat;
        assert(visit_linked(base, befores, visits, i - 1));
        assert(visit_sound(base, befores, visits, i - 1));
        let next = list.subrange(0, f.done + 1);
        assert(next.drop_last() =~= list.subrange(0, f.done as int));
        assert(next.last() == list[f.done as int]);
        assert(list_end(shape, next, below, f.start + 1) == visit_end(
            shape,
            g.node as int,
            below,
            g.start as int,
        ));
        lemma_list_end_stops(shape, list, below, f.start + 1, f.done + 1);
        assert(shape[f.node as int] == list);
        assert(visit_end(shape, f.node as int, (MAX_DEPTH - (i - 1)) as nat, f.start as int) == Err::<
            int,
            TaxonomyError,
        >(e));
        lemma_walk_fails(base, befores, visits, i - 1, e);
    }
}

impl MultiTree {
    /// Labels the visits of a walk from the root, depth first, and gives
    /// the count at which the walk ends. The visits that are under way
    /// are kept in a list, the visit of the root first.
    #[verifier::rlimit(100)]
    fn walk(&mut self) -> (r: Result<u64, TaxonomyError>)
        requires
            old(self).wf(),
            old(self).unlabelled(),
        ensures
            final(self).wf(),
            old(self).same_graph(final(self)),
            r matches Ok(c1) ==> old(self).visited(final(self), 0, None, 0, 0, c1),
            visit_end(old(self).shape(), 0, MAX_DEPTH as nat, 0) == (match r {
                Ok(c1) => Ok::<int, TaxonomyError>(c1 as int),
                Err(e) => Err::<int, TaxonomyError>(e),
            }),
            r matches Err(e) ==> e is TooDeep || e is TooLarge,
    {
        let ghost base = *self;
        let ghost shape = base.shape();
        let ghost mut befores: Seq<MultiTree> = seq![base];
        let mut visits: Vec<Visit> = Vec::new();
        visits.push(Visit { node: 0, done: 0, start: 0 });
        let mut counter: u64 = 1;
        proof {
            reveal(MultiTree::laminar);
            assert(shape.len() == base.nodes().len());
            assert(visit_sound(base, befores, visits@, 0));
            assert(base.visiting(self, 0, 0, 0, 1, 0));
            assert(base.nodes()[0].children().subrange(0, 0) =~= Seq::<usize>::empty());
        }
        while visits.len() > 0
            invariant
                self.wf(),
                base.wf(),
                base == *old(self),
                base.same_graph(self),
                shape == base.shape(),
                visits_sound(base, befores, visits@),
                visits@.len() > 0 ==> befores[0] == base && befores.last().visiting(
                    self,
                    visits@.last().node,
                    (visits@.len() - 1) as u16,
                    visits@.last().start,
                    counter,
                    visits@.last().done as int,
                ) && list_end(
                    shape,
                    base.nodes()[visits@.last().node as int].children().subrange(
                        0,
                        visits@.last().done as int,
                    ),
                    (MAX_DEPTH - visits@.len()) as nat,
                    visits@.last().start + 1,
                ) == Ok::<int, TaxonomyError>(counter as int),
                visits@.len() == 0 ==> base.visited(self, 0, None, 0, 0, counter) && visit_end(
                    shape,
                    0,
                    MAX_DEPTH as nat,
                    0,
                ) == Ok::<int, TaxonomyError>(counter as int),
            decreases u64::MAX - counter,
        {
            let top: usize = visits.len() - 1;
            let f: Visit = visits[top];
            let ghost before = befores[top as int];
            let ghost list = base.nodes()[f.node as int].children();
            let ghost fuel = (MAX_DEPTH - top) as nat;
            proof {
                assert(visit_sound(base, befores, visits@, top as int));
                assert(self.nodes()[f.node as int].children() == list);
                assert(shape[f.node as int] == list);
                assert(shape.len() == base.nodes().len());
            }
            if f.done < self.nodes[f.node].children.len() {
                let child: usize = self.nodes[f.node].children[f.done];
                let ghost next = list.subrange(0, f.done + 1);
                proof {
                    assert(0 < base.nodes()[f.node as int].children()[f.done as int]
                        < base.nodes().len());
                    assert(next.drop_last() =~= list.subrange(0, f.done as int));
                    assert(next.last() == list[f.done as int]);
                    assert(list_end(shape, next, (fuel - 1) as nat, f.start + 1) == visit_end(
                        shape,
                        child as int,
                        (fuel - 1) as nat,
                        counter as int,
                    ));
                }
                if visits.len() >= MAX_DEPTH {
                    proof {
                        lemma_list_end_stops(shape, list, (fuel - 1) as nat, f.start + 1, f.done + 1);
                        lemma_walk_fails(base, befores, visits@, top as int, TaxonomyError::TooDeep);
                    }
                    return Err(TaxonomyError::TooDeep);
                }
                if counter == u64::MAX {
                    proof {
                        lemma_list_end_stops(shape, list, (fuel - 1) as nat, f.start + 1, f.done + 1);
                        lemma_walk_fails(base, befores, visits@, top as int, TaxonomyError::TooLarge);
                    }
                    return Err(TaxonomyError::TooLarge);
                }
                let ghost old_visits = visits@;
                let ghost old_befores = befores;
                visits.push(Visit { node: child, done: 0, start: counter });
                proof {
                    befores = befores.push(*self);
                    assert forall|i: int| 0 <= i < visits@.len() implies #[trigger] visit_sound(
                        base,
                        befores,
                        visits@,
                        i,
                    ) by {
                        if i < old_visits.len() {
                            assert(visit_sound(base, old_befores, old_visits, i));
                        }
                    }
                    assert forall|i: int| 0 <= i < visits@.len() - 1 implies #[trigger] visit_linked(
                        base,
                        befores,
                        visits@,
                        i,
                    ) by {
                        if i < old_visits.len() - 1 {
                            assert(visit_linked(base, old_befores, old_visits, i));
                        }
                    }
                    assert(self.visiting(self, child, (top + 1) as u16, counter, (counter + 1) as u64, 0));
                    assert(base.nodes()[child as int].children().subrange(0, 0) =~= Seq::<
                        usize,
                    >::empty());
                }
                counter = counter + 1;
            } else {
                proof {
                    assert(list.subrange(0, f.done as int) =~= list);
                }
                if counter == u64::MAX {
                    proof {
                        lemma_walk_fails(base, befores, visits@, top as int, TaxonomyError::TooLarge);
                    }
                    return Err(TaxonomyError::TooLarge);
                }
                let parent: Option<usize> = if top == 0 {
                    None
                } else {
                    Some(visits[top - 1].node)
                };
                let ghost cur = *self;
                self.nodes[f.node].interval_nodes.push(
                    IntervalNode { start: f.start, end: counter, layer: top as u16, parent },
                );
                proof {
                    assert(cur.same_graph(self));
                    cur.lemma_same_graph_wf(self);
                    base.lemma_same_graph_twice(&cur, self);
                    before.lemma_visit_close(&cur, self, f.node, parent, top as u16, f.start, counter);
                    assert(visit_end(shape, f.node as int, fuel, f.start as int) == Ok::<
                        int,
                        TaxonomyError,
                    >(counter + 1));
                }
                counter = counter + 1;
                let ghost old_visits = visits@;
                let ghost old_befores = befores;
                visits.pop();
                proof {
                    befores = befores.drop_last();
                }
                if top > 0 {
                    let p: Visit = visits[top - 1];
                    proof {
                        assert(visit_linked(base, old_befores, old_visits, top - 1));
                        assert(visit_sound(base, old_befores, old_visits, top - 1));
                        assert(self.nodes()[p.node as int].children() == base.nodes()[p.node as int].children());
                    }
                    let sub_nodes: usize = self.nodes[p.node].children.len();
                    visits[top - 1] = Visit { node: p.node, done: p.done + 1, start: p.start };
                    proof {
                        let lower = old_befores[top - 1];
                        let plist = base.nodes()[p.node as int].children();
                        assert(lower.visiting(
                            &before,
                            p.node,
                            (top - 1) as u16,
                            p.start,
                            f.start,
                            p.done as int,
                        ));
                        before.lemma_same_graph_twice(&cur, self);
                        assert(lower.nodes()[p.node as int].children() == plist);
                        lower.lemma_visit_step(
                            &before,
                            self,
                            p.node,
                            (top - 1) as u16,
                            p.start,
                            f.start,
                            counter,
                            p.done as int,
                        );
                        let pnext = plist.subrange(0, p.done + 1);
                        assert(pnext.drop_last() =~= plist.subrange(0, p.done as int));
                        assert(pnext.last() == plist[p.done as int]);
                        assert forall|i: int| 0 <= i < visits@.len() implies #[trigger] visit_sound(
                            base,
                            befores,
                            visits@,
                            i,
                        ) by {
                            assert(visit_sound(base, old_befores, old_visits, i));
                        }
                        assert forall|i: int|
                            0 <= i < visits@.len() - 1 implies #[trigger] visit_linked(
                            base,
                            befores,
                            visits@,
                            i,
                        ) by {
                            assert(visit_linked(base, old_befores, old_visits, i));
                        }
                    }
                } else {
                    proof {
                        assert(before == base);
                        assert(f.node == 0 && f.start == 0);
                    }
                }
            }
        }
        Ok(counter)
    }
}

impl MultiTree {
    /// Whether the taxonomy carries the labels of a walk from its root:
    /// the root has one label, on layer 0; every other label lies within
    /// it and is directly below a label of the parent that it names; the
    /// sub-nodes of the node of a label have labels directly below it; and
    /// any two labels are apart or nested, the inner one on a deeper
    /// layer.
    #[verifier::opaque]
    pub open spec fn walked(&self) -> bool {
        &&& self.wf()
        &&& self.laminar()
        &&& self.nodes()[0].intervals().len() == 1
        &&& self.label(0, 0).layer == 0
        &&& forall|i: int, k: int|
            self.has_label(i, k) ==> (#[trigger] self.label(i, k)).start < self.label(i, k).end
                && self.label(i, k).within(self.label(0, 0)) && self.children_covered(i, k) && ((i
                == 0 && k == 0) || self.has_parent_label(i, k))
    }

    /// Whether every node has a label.
    pub open spec fn all_labelled(&self) -> bool {
        forall|i: int| 0 <= i < self.nodes().len() ==> (#[trigger] self.nodes()[i]).intervals().len() > 0
    }

    /// Whether the taxonomy is labelled: it carries the labels of a walk
    /// from its root, and the walk came to every node.
    pub open spec fn labelled(&self) -> bool {
        self.walked() && self.all_labelled()
    }

    /// Whether every node is the root or below it.
    pub open spec fn rooted(&self) -> bool {
        forall|i: int| 0 <= i < self.nodes().len() ==> #[trigger] self.reaches(0, i)
    }

    /// Whether a list of nodes is a chain in which each node but the first
    /// is a direct sub-node of the node before it.
    pub open spec fn is_path(&self, path: Seq<int>) -> bool {
        &&& path.len() >= 1
        &&& 0 <= path[0] < self.nodes().len()
        &&& forall|t: int| 0 <= t < path.len() - 1 ==> self.edge(#[trigger] path[t], path[t + 1])
    }

    /// Whether the node `a` is the node `b` or below it: whether a chain of
    /// direct sub-relations leads from `b` to `a`.
    pub open spec fn reaches(&self, b: int, a: int) -> bool {
        exists|path: Seq<int>| #[trigger] self.is_path(path) && path[0] == b && path.last() == a
    }

    /// Whether some label of the node `a` lies within some label of the
    /// node `b`.
    pub open spec fn encloses(&self, b: int, a: int) -> bool {
        exists|ka: int, kb: int|
            self.has_label(a, ka) && self.has_label(b, kb) && (#[trigger] self.label(a, ka)).within(
                #[trigger] self.label(b, kb),
            )
    }

    /// Whether the visits of a walk from the root can be counted: no chain
    /// of sub-relations from the root is too long, and the steps fit the
    /// counter.
    pub open spec fn countable(&self) -> bool {
        visit_end(self.shape(), 0, MAX_DEPTH as nat, 0) is Ok
    }

    /// Why the taxonomy cannot be labelled, if it cannot: the failure of
    /// the walk from the root, or, where the walk ends well, that it has
    /// not come to every node.
    pub open spec fn fault(&self) -> Option<TaxonomyError> {
        match visit_end(self.shape(), 0, MAX_DEPTH as nat, 0) {
            Err(e) => Some(e),
            Ok(_) => if self.rooted() {
                None
            } else {
                Some(TaxonomyError::Unrooted)
            },
        }
    }

    /// Whether every node has a label.
    fn has_all_labels(&self) -> (b: bool)
        ensures
            b == self.all_labelled(),
    {
        let mut i: usize = 0;
        while i < self.nodes.len()
            invariant
                i <= self.nodes@.len(),
                forall|j: int| 0 <= j < i ==> (#[trigger] self.nodes()[j]).intervals().len() > 0,
            decreases self.nodes@.len() - i,
        {
            if self.nodes[i].interval_nodes.len() == 0 {
                assert(self.nodes()[i as int].intervals().len() == 0);
                return false;
            }
            i = i + 1;
        }
        true
    }

    /// Labels the taxonomy: walks it depth first from the root, counts
    /// every entry into a node and every exit from it, and gives the node
    /// for each visit a label from the count at entry to the count at
    /// exit, with the depth of the visit and the node from which it came.
    /// Labels that were there before are dropped. Fails, and leaves no
    /// label, if a chain of sub-relations from the root is too long, as it
    /// is wherever the sub-relations below the root run in a circle; if
    /// there are too many visits to count; or if some node is not below
    /// the root, as no node is to which only a circle leads.
    pub fn encode(&mut self) -> (r: Result<(), TaxonomyError>)
        requires
            old(self).wf(),
        ensures
            final(self).wf(),
            old(self).same_graph(final(self)),
            r is Ok ==> final(self).labelled(),
            r is Err ==> final(self).unlabelled(),
            r is Ok == (old(self).countable() && old(self).rooted()),
            (r matches Err(TaxonomyError::Unrooted)) == (old(self).countable() && !old(
                self,
            ).rooted()),
            r == (match old(self).fault() {
                None => Ok::<(), TaxonomyError>(()),
                Some(e) => Err::<(), TaxonomyError>(e),
            }),
    {
        self.clear_labels();
        let ghost cleared = *self;
        proof {
            old(self).lemma_same_shape(&cleared);
        }
        match self.walk() {
            Ok(counter) => {
                let ghost walk = *self;
                proof {
                    old(self).lemma_same_graph_twice(&cleared, self);
                    cleared.lemma_walked(self, counter);
                    self.lemma_walked_rooted();
                    old(self).lemma_same_graph_rooted(self);
                }
                if self.has_all_labels() {
                    Ok(())
                } else {
                    self.clear_labels();
                    proof {
                        old(self).lemma_same_graph_twice(&walk, self);
                    }
                    Err(TaxonomyError::Unrooted)
                }
            },
            Err(e) => {
                let ghost failed = *self;
                self.clear_labels();
                proof {
                    old(self).lemma_same_graph_twice(&cleared, &failed);
                    old(self).lemma_same_graph_twice(&failed, self);
                }
                Err(e)
            },
        }
    }

    /// A taxonomy without labels whose root was visited carries the labels
    /// of a walk from its root.
    proof fn lemma_walked(&self, after: &MultiTree, c1: u64)
        requires
            self.wf(),
            after.wf(),
            self.same_graph(after),
            self.unlabelled(),
            self.visited(after, 0, None, 0, 0, c1),
        ensures
            after.walked(),
    {
        let last = after.nodes()[0].intervals().len() - 1;
        reveal(MultiTree::walked);
        assert forall|k: int| after.has_label(0, k) implies k == last by {
            if k != last {
                assert(after.has_parent_label(0, k));
                let p = after.label(0, k).parent->Some_0 as int;
                assert(after.edge(p, 0));
                let j = choose|j: int|
                    0 <= j < after.nodes()[p].children().len() && #[trigger] after.nodes()[p].children()[j]
                        == 0;
                assert(0 < after.nodes()[p].children()[j]);
            }
        }
        assert(after.has_label(0, 0));
        assert(last == 0);
    }

    /// Taxonomies with the same sub-relations have the same chains.
    pub proof fn lemma_same_graph_reaches(&self, other: &MultiTree, b: int, a: int)
        requires
            self.same_graph(other),
        ensures
            self.reaches(b, a) == other.reaches(b, a),
    {
        if self.reaches(b, a) {
            let path = choose|path: Seq<int>| #[trigger]
                self.is_path(path) && path[0] == b && path.last() == a;
            assert forall|t: int| 0 <= t < path.len() - 1 implies other.edge(
                #[trigger] path[t],
                path[t + 1],
            ) by {
                self.lemma_edge_same(other, path[t], path[t + 1]);
            }
            assert(other.is_path(path));
        }
        if other.reaches(b, a) {
            let path = choose|path: Seq<int>| #[trigger]
                other.is_path(path) && path[0] == b && path.last() == a;
            assert forall|t: int| 0 <= t < path.len() - 1 implies self.edge(
                #[trigger] path[t],
                path[t + 1],
            ) by {
                self.lemma_edge_same(other, path[t], path[t + 1]);
            }
            assert(self.is_path(path));
        }
    }

    /// Taxonomies with the same sub-relations have every node below the
    /// root, or neither has.
    pub proof fn lemma_same_graph_rooted(&self, other: &MultiTree)
        requires
            self.same_graph(other),
        ensures
            self.rooted() == other.rooted(),
    {
        assert forall|i: int| self.reaches(0, i) == other.reaches(0, i) by {
            self.lemma_same_graph_reaches(other, 0, i);
        }
    }

    /// In a taxonomy that carries the labels of a walk from its root, the
    /// nodes with a label are the root and the nodes below it.
    pub proof fn lemma_walked_reaches(&self, i: int)
        requires
            self.walked(),
            0 <= i < self.nodes().len(),
        ensures
            self.reaches(0, i) == (self.nodes()[i].intervals().len() > 0),
    {
        self.lemma_walked_label(0, 0);
        if self.nodes()[i].intervals().len() > 0 {
            self.lemma_walked_label(i, 0);
            self.lemma_enclosed_is_below(i, 0, 0, 0);
        }
        if self.reaches(0, i) {
            self.lemma_reaches_encloses(i, 0);
        }
    }

    /// In a taxonomy that carries the labels of a walk from its root,
    /// every node has a label exactly if every node is the root or below
    /// it.
    pub proof fn lemma_walked_rooted(&self)
        requires
            self.walked(),
        ensures
            self.rooted() == self.all_labelled(),
    {
        if self.rooted() {
            assert forall|i: int| 0 <= i < self.nodes().len() implies (
            #[trigger] self.nodes()[i]).intervals().len() > 0 by {
                assert(self.reaches(0, i));
                self.lemma_walked_reaches(i);
            }
        }
        if self.all_labelled() {
            assert forall|i: int| 0 <= i < self.nodes().len() implies #[trigger] self.reaches(
                0,
                i,
            ) by {
                assert(self.nodes()[i].intervals().len() > 0);
                self.lemma_walked_reaches(i);
            }
        }
    }

    /// A chain that is made longer by a direct sub-node is a chain.
    pub proof fn lemma_reaches_step(&self, b: int, p: int, a: int)
        requires
            self.reaches(b, p),
            self.edge(p, a),
        ensures
            self.reaches(b, a),
    {
        let path = choose|path: Seq<int>| #[trigger]
            self.is_path(path) && path[0] == b && path.last() == p;
        let longer = path.push(a);
        assert forall|t: int| 0 <= t < longer.len() - 1 implies self.edge(
            #[trigger] longer[t],
            longer[t + 1],
        ) by {
            if t < path.len() - 1 {
                assert(self.edge(path[t], path[t + 1]));
            }
        }
        assert(self.is_path(longer));
        assert(longer[0] == b && longer.last() == a);
    }

    /// What a taxonomy that carries the labels of a walk from its root
    /// says of its root and of one of its labels.
    pub proof fn lemma_walked_label(&self, i: int, k: int)
        requires
            self.walked(),
            i == 0 && k == 0 || self.has_label(i, k),
        ensures
            self.wf(),
            self.laminar(),
            self.has_label(i, k),
            self.label(i, k).start < self.label(i, k).end,
            self.label(i, k).within(self.label(0, 0)),
            self.children_covered(i, k),
            (i == 0 && k == 0 && self.label(i, k).layer == 0) || self.has_parent_label(i, k),
    {
        reveal(MultiTree::walked);
    }

    /// The label of a parent that is directly above a label.
    pub proof fn lemma_parent_label(&self, i: int, k: int) -> (r: (int, int))
        requires
            self.has_label(i, k),
            self.has_parent_label(i, k),
        ensures
            self.has_label(r.0, r.1),
            self.edge(r.0, i),
            child_label(self.label(i, k), self.label(r.0, r.1)),
    {
        let p = self.label(i, k).parent->Some_0 as int;
        let m = choose|m: int|
            self.has_label(p, m) && child_label(self.label(i, k), #[trigger] self.label(p, m));
        (p, m)
    }

    /// The chain that is one node.
    pub proof fn lemma_reaches_self(&self, a: int)
        requires
            0 <= a < self.nodes().len(),
        ensures
            self.reaches(a, a),
    {
        let path = seq![a];
        assert(self.is_path(path));
        assert(path[0] == a && path.last() == a);
    }

    /// In a taxonomy that carries the labels of a walk from its root, a
    /// node with a label within a label of another node is that node or
    /// below it.
#[verifier::rlimit(30)]
    pub proof fn lemma_enclosed_is_below(&self, a: int, ka: int, b: int, kb: int)
        requires
            self.walked(),
            self.has_label(a, ka),
            self.has_label(b, kb),
            self.label(a, ka).within(self.label(b, kb)),
        ensures
            self.reaches(b, a),
        decreases self.label(a, ka).layer,
    {
        let x = self.label(a, ka);
        let y = self.label(b, kb);
        self.lemma_walked_label(a, ka);
        self.lemma_walked_label(b, kb);
        if a == b && ka == kb {
            self.lemma_reaches_self(a);
        } else {
            self.lemma_laminar_pair(a, ka, b, kb);
            assert(y.layer < x.layer);
            let (p, m) = self.lemma_parent_label(a, ka);
            let z = self.label(p, m);
            self.lemma_walked_label(p, m);
            if p == b && m == kb {
                self.lemma_reaches_self(b);
                self.lemma_reaches_step(b, b, a);
            } else {
                self.lemma_laminar_pair(p, m, b, kb);
                assert(z.within(y));
                self.lemma_enclosed_is_below(p, m, b, kb);
                self.lemma_reaches_step(b, p, a);
            }
        }
    }

    /// Whether the sub-nodes of the node of every label have labels
    /// directly below the label.
    pub open spec fn all_covered(&self) -> bool {
        forall|i: int, k: int| #[trigger] self.has_label(i, k) ==> self.children_covered(i, k)
    }

    /// A direct sub-node of the node of a label has a label within it.
    proof fn lemma_child_enclosed(&self, q: int, kq: int, a: int, outer: IntervalNode)
        requires
            self.has_label(q, kq),
            self.children_covered(q, kq),
            self.edge(q, a),
            self.label(q, kq).within(outer),
        ensures
            exists|ka: int| self.has_label(a, ka) && (#[trigger] self.label(a, ka)).within(outer),
    {
        let ka = choose|ka: int|
            self.has_label(a, ka) && parent_is(self.label(a, ka), q) && child_label(
                #[trigger] self.label(a, ka),
                self.label(q, kq),
            );
        assert(self.label(a, ka).within(outer));
    }

    /// Every label of a node has within it a label of each node below that
    /// node, if the sub-nodes of the node of every label have labels
    /// directly below the label.
#[verifier::rlimit(30)]
    pub proof fn lemma_below_is_enclosed(&self, path: Seq<int>, kb: int)
        requires
            self.all_covered(),
            self.is_path(path),
            self.has_label(path[0], kb),
        ensures
            exists|ka: int|
                self.has_label(path.last(), ka) && (#[trigger] self.label(path.last(), ka)).within(
                    self.label(path[0], kb),
                ),
        decreases path.len(),
    {
        let outer = self.label(path[0], kb);
        if path.len() == 1 {
            assert(self.label(path.last(), kb).within(outer));
        } else {
            let shorter = path.drop_last();
            assert forall|t: int| 0 <= t < shorter.len() - 1 implies self.edge(
                #[trigger] shorter[t],
                shorter[t + 1],
            ) by {
                assert(self.edge(path[t], path[t + 1]));
            }
            assert(self.is_path(shorter));
            self.lemma_below_is_enclosed(shorter, kb);
            let q = shorter.last();
            let kq = choose|kq: int|
                self.has_label(q, kq) && (#[trigger] self.label(q, kq)).within(outer);
            let t = path.len() - 2;
            assert(self.edge(path[t], path[t + 1]));
            assert(self.children_covered(q, kq));
            self.lemma_child_enclosed(q, kq, path.last(), outer);
        }
    }

    /// In a taxonomy that carries the labels of a walk from its root, the
    /// sub-nodes of the node of every label have labels directly below the
    /// label.
    pub proof fn lemma_walked_covered(&self)
        requires
            self.walked(),
        ensures
            self.all_covered(),
    {
        reveal(MultiTree::walked);
    }

    /// In a taxonomy that carries the labels of a walk from its root, a
    /// node of which some label lies within some label of another node is
    /// that node or below it.
    pub proof fn lemma_encloses_reaches(&self, a: int, b: int)
        requires
            self.walked(),
            self.encloses(b, a),
        ensures
            self.reaches(b, a),
    {
        let (ka, kb) = choose|ka: int, kb: int|
            self.has_label(a, ka) && self.has_label(b, kb) && (#[trigger] self.label(a, ka)).within(
                #[trigger] self.label(b, kb),
            );
        self.lemma_enclosed_is_below(a, ka, b, kb);
    }

    /// In a taxonomy that carries the labels of a walk from its root, a
    /// node that is a node with a label, or below it, has a label within a
    /// label of that node.
    pub proof fn lemma_reaches_encloses(&self, a: int, b: int)
        requires
            self.walked(),
            0 <= b < self.nodes().len(),
            self.nodes()[b].intervals().len() > 0,
            self.reaches(b, a),
        ensures
            self.encloses(b, a),
    {
        let path = choose|path: Seq<int>| #[trigger]
            self.is_path(path) && path[0] == b && path.last() == a;
        assert(self.has_label(b, 0));
        self.lemma_walked_covered();
        self.lemma_below_is_enclosed(path, 0);
        let ka = choose|ka: int|
            self.has_label(path.last(), ka) && (#[trigger] self.label(path.last(), ka)).within(
                self.label(path[0], 0),
            );
        assert(self.has_label(a, ka) && self.has_label(b, 0) && self.label(a, ka).within(
            self.label(b, 0),
        ));
    }

    /// The containment test is right: in a labelled taxonomy, a node is
    /// another node, or below it, exactly if some label of the one lies
    /// within some label of the other.
#[verifier::rlimit(30)]
    pub proof fn lemma_interval_containment(&self, a: int, b: int)
        requires
            self.labelled(),
            0 <= b < self.nodes().len(),
        ensures
            self.reaches(b, a) <==> self.encloses(b, a),
    {
        assert(self.nodes()[b].intervals().len() > 0);
        if self.encloses(b, a) {
            self.lemma_encloses_reaches(a, b);
        }
        if self.reaches(b, a) {
            self.lemma_reaches_encloses(a, b);
        }
    }

    /// Whether some label of the node at `a` lies within some label of the
    /// node at `b`: in a labelled taxonomy, whether `a` is `b` or below
    /// it.
    pub fn is_descendant(&self, a: usize, b: usize) -> (r: bool)
        requires
            a < self.nodes().len(),
            b < self.nodes().len(),
        ensures
            r == self.encloses(b as int, a as int),
    {
        let inner = &self.nodes[a].interval_nodes;
        let outer = &self.nodes[b].interval_nodes;
        let mut i: usize = 0;
        while i < inner.len()
            invariant
                i <= inner@.len(),
                inner@ == self.nodes()[a as int].intervals(),
                outer@ == self.nodes()[b as int].intervals(),
                a < self.nodes().len(),
                b < self.nodes().len(),
                forall|ka: int, kb: int|
                    0 <= ka < i && 0 <= kb < outer@.len() ==> !(#[trigger] inner@[ka]).within(
                        #[trigger] outer@[kb],
                    ),
            decreases inner@.len() - i,
        {
            let mut j: usize = 0;
            while j < outer.len()
                invariant
                    j <= outer@.len(),
                    i < inner@.len(),
                    inner@ == self.nodes()[a as int].intervals(),
                    outer@ == self.nodes()[b as int].intervals(),
                    a < self.nodes().len(),
                    b < self.nodes().len(),
                    forall|kb: int| 0 <= kb < j ==> !inner@[i as int].within(#[trigger] outer@[kb]),
                decreases outer@.len() - j,
            {
                if inner[i].is_within(&outer[j]) {
                    proof {
                        assert(self.has_label(a as int, i as int) && self.has_label(
                            b as int,
                            j as int,
                        ) && self.label(a as int, i as int).within(self.label(b as int, j as int)));
                    }
                    return true;
                }
                j = j + 1;
            }
            i = i + 1;
        }
        proof {
            if self.encloses(b as int, a as int) {
                let (ka, kb) = choose|ka: int, kb: int|
                    self.has_label(a as int, ka) && self.has_label(b as int, kb) && (
                    #[trigger] self.label(a as int, ka)).within(#[trigger] self.label(b as int, kb));
                assert(!inner@[ka].within(outer@[kb]));
            }
        }
        false
    }
}

} // verus!
