//! Taxonomies without circles: every node of a taxonomy that has grown
//! from its root by insertions is the root or below it, unless the
//! sub-relations run in a circle.

use vstd::prelude::*;
use vstd::set_lib::lemma_int_range;
use vstd::set_lib::lemma_len_subset;
use vstd::set_lib::set_int_range;
use crate::numeric_encoder::hash_of_text;
use crate::numeric_encoder::StrHash;
use crate::taxonomy::insertion;
use crate::taxonomy::lemma_without_item;
use crate::taxonomy::with_item;
use crate::taxonomy::without_item;
use crate::taxonomy::MultiTree;
use crate::taxonomy_file::can_be_labelled;
use crate::taxonomy_file::file_edges;
use crate::taxonomy_file::taxonomy_of;
use crate::taxonomy_file::TaxonomyKind;
use crate::taxonomy_file::grown;
use crate::taxonomy_file::grown_from_root;

verus! {

/// Whether a node is a direct sub-node of some node.
pub open spec fn has_parent(tree: MultiTree, c: int) -> bool {
    exists|p: int| #[trigger] tree.edge(p, c)
}

/// Whether every node but the root is a direct sub-node of some node.
pub open spec fn parented(tree: MultiTree) -> bool {
    forall|c: int| 0 < c < tree.nodes().len() ==> #[trigger] has_parent(tree, c)
}

/// Whether a list of nodes is a circle: a chain of direct sub-relations
/// that comes back to its first node.
pub open spec fn is_circle(tree: MultiTree, path: Seq<int>) -> bool {
    tree.is_path(path) && path.len() >= 2 && path[0] == path.last()
}

/// Whether no chain of direct sub-relations comes back to its first node.
pub open spec fn acyclic(tree: MultiTree) -> bool {
    forall|path: Seq<int>| !#[trigger] is_circle(tree, path)
}

/// More numbers than `n`, each of them below `n`, hold one of them twice.
proof fn lemma_one_twice(list: Seq<int>, n: int)
    requires
        list.len() > n >= 0,
        forall|t: int| 0 <= t < list.len() ==> 0 <= #[trigger] list[t] < n,
    ensures
        exists|i: int, j: int| 0 <= i < j < list.len() && list[i] == list[j],
{
    if list.no_duplicates() {
        list.unique_seq_to_set();
        lemma_int_range(0, n);
        assert(list.to_set().subset_of(set_int_range(0, n))) by {
            assert forall|x: int| list.to_set().contains(x) implies set_int_range(0, n).contains(
                x,
            ) by {
                let t = choose|t: int| 0 <= t < list.len() && list[t] == x;
                assert(0 <= list[t] < n);
            }
        }
        lemma_len_subset(list.to_set(), set_int_range(0, n));
    } else {
        let (i, j) = choose|i: int, j: int|
            0 <= i < list.len() && 0 <= j < list.len() && i != j && list[i] == list[j];
        if i < j {
            assert(0 <= i < j < list.len() && list[i] == list[j]);
        } else {
            assert(0 <= j < i < list.len() && list[j] == list[i]);
        }
    }
}

/// A chain of a length upwards from a node that is not below the root,
/// in a taxonomy in which every node but the root has a parent.
proof fn lemma_climb(tree: MultiTree, x: int, steps: nat) -> (path: Seq<int>)
    requires
        tree.wf(),
        parented(tree),
        0 <= x < tree.nodes().len(),
        !tree.reaches(0, x),
    ensures
        tree.is_path(path),
        path.len() == steps + 1,
        path.last() == x,
        !tree.reaches(0, path[0]),
        forall|t: int| 0 <= t < path.len() ==> 0 <= #[trigger] path[t] < tree.nodes().len(),
    decreases steps,
{
    if steps == 0 {
        let path = seq![x];
        assert(tree.is_path(path));
        path
    } else {
        let rest = lemma_climb(tree, x, (steps - 1) as nat);
        let top = rest[0];
        tree.lemma_reaches_self(0);
        assert(top != 0);
        assert(has_parent(tree, top));
        let p = choose|p: int| #[trigger] tree.edge(p, top);
        if tree.reaches(0, p) {
            tree.lemma_reaches_step(0, p, top);
        }
        let path = seq![p] + rest;
        assert forall|t: int| 0 <= t < path.len() - 1 implies tree.edge(
            #[trigger] path[t],
            path[t + 1],
        ) by {
            if t > 0 {
                assert(path[t] == rest[t - 1]);
                assert(path[t + 1] == rest[t]);
                assert(tree.edge(rest[t - 1], rest[t - 1 + 1]));
            } else {
                assert(path[1] == rest[0]);
            }
        }
        assert(tree.is_path(path));
        assert(path.last() == rest.last());
        assert forall|t: int| 0 <= t < path.len() implies 0 <= #[trigger] path[t]
            < tree.nodes().len() by {
            if t > 0 {
                assert(path[t] == rest[t - 1]);
            }
        }
        path
    }
}

/// In a taxonomy without circles in which every node but the root has a
/// parent, every node is the root or below it.
pub proof fn lemma_acyclic_is_rooted(tree: MultiTree)
    requires
        tree.wf(),
        parented(tree),
        acyclic(tree),
    ensures
        tree.rooted(),
{
    let n = tree.nodes().len();
    assert forall|x: int| 0 <= x < n implies #[trigger] tree.reaches(0, x) by {
        if !tree.reaches(0, x) {
            let path = lemma_climb(tree, x, n);
            lemma_one_twice(path, n as int);
            let (i, j) = choose|i: int, j: int| 0 <= i < j < path.len() && path[i] == path[j];
            let circle = path.subrange(i, j + 1);
            assert forall|t: int| 0 <= t < circle.len() - 1 implies tree.edge(
                #[trigger] circle[t],
                circle[t + 1],
            ) by {
                assert(circle[t] == path[i + t]);
                assert(circle[t + 1] == path[i + t + 1]);
                assert(tree.edge(path[i + t], path[i + t + 1]));
            }
            assert(0 <= path[i] < n);
            assert(circle[0] == path[i]);
            assert(circle.last() == path[j]);
            assert(is_circle(tree, circle));
        }
    }
}

/// A node whose list of sub-nodes holds a node has that node as a direct
/// sub-node.
proof fn lemma_edge_of(tree: MultiTree, p: int, c: int)
    requires
        0 <= p < tree.nodes().len(),
        0 <= c < tree.nodes().len(),
        tree.nodes()[p].children().contains(c as usize),
    ensures
        tree.edge(p, c),
{
    tree.lemma_nodes_fit();
    let list = tree.nodes()[p].children();
    let k = choose|k: int| 0 <= k < list.len() && list[k] == c as usize;
    assert(0 <= k < tree.nodes()[p].children().len() && tree.nodes()[p].children()[k] == c);
}

/// The list of sub-nodes of a node holds its direct sub-nodes.
proof fn lemma_edge_holds(tree: MultiTree, p: int, c: int)
    requires
        tree.edge(p, c),
    ensures
        tree.nodes()[p].children().contains(c as usize),
{
    let list = tree.nodes()[p].children();
    let k = choose|k: int| 0 <= k < list.len() && #[trigger] list[k] == c;
    assert(list[k] == c as usize);
}

/// An insertion leaves no node but the root without a parent.
#[verifier::rlimit(50)]
pub proof fn lemma_insertion_parented(
    before: MultiTree,
    after: MultiTree,
    child: Seq<char>,
    parent: Seq<char>,
)
    requires
        before.wf(),
        parented(before),
        insertion(before, after, child, parent),
    ensures
        parented(after),
{
    let hc = hash_of_text(child);
    let hp = hash_of_text(parent);
    let old_nodes = before.nodes();
    let nodes = after.nodes();
    let n = old_nodes.len() as int;
    before.lemma_nodes_fit();
    after.lemma_nodes_fit();
    if hc == hp || hc == old_nodes[0].hash() {
        assert forall|x: int| 0 < x < nodes.len() implies #[trigger] has_parent(after, x) by {
            assert(has_parent(before, x));
            let q = choose|q: int| #[trigger] before.edge(q, x);
            lemma_edge_holds(before, q, x);
            lemma_edge_of(after, q, x);
        }
    } else {
        let p = match before.index_of(hp) {
            Some(p) => p,
            None => n,
        };
        let c = match before.index_of(hc) {
            Some(c) => c,
            None => if before.index_of(hp) is None {
                n + 1
            } else {
                n
            },
        };
        let first = if before.index_of(hp) is None {
            old_nodes[0].children().push(p as usize)
        } else {
            old_nodes[0].children()
        };
        let root_children = if p != 0 {
            without_item(first, c as usize)
        } else {
            first
        };
        assert(old_nodes[0].children().no_duplicates());
        assert(first.no_duplicates()) by {
            if before.index_of(hp) is None {
                let list = old_nodes[0].children();
                assert forall|i: int, j: int|
                    0 <= i < first.len() && 0 <= j < first.len() && i != j implies first[i]
                    != first[j] by {
                    if i < list.len() {
                        assert(0 < old_nodes[0].children()[i] < n);
                    }
                    if j < list.len() {
                        assert(0 < old_nodes[0].children()[j] < n);
                    }
                }
            }
        }
        lemma_without_item(first, c as usize);
        assert forall|x: int| 0 < x < nodes.len() implies #[trigger] has_parent(after, x) by {
            let to_p = nodes[p].children();
            let to_root = nodes[0].children();
            if x == c {
                let base = if p == 0 {
                    root_children
                } else if p < n {
                    old_nodes[p].children()
                } else {
                    Seq::<usize>::empty()
                };
                assert(to_p == with_item(base, c as usize));
                if !base.contains(c as usize) {
                    assert(to_p[to_p.len() - 1] == c as usize);
                }
                lemma_edge_of(after, p, c);
            } else if x >= n {
                assert(before.index_of(hp) is None);
                assert(x == p);
                assert(first[first.len() - 1] == p as usize);
                assert(first.contains(p as usize));
                assert(root_children.contains(p as usize));
                assert(to_root == root_children);
                lemma_edge_of(after, 0, x);
            } else {
                assert(has_parent(before, x));
                let q = choose|q: int| #[trigger] before.edge(q, x);
                lemma_edge_holds(before, q, x);
                let list = old_nodes[q].children();
                let base = if q == 0 {
                    root_children
                } else {
                    list
                };
                if q == 0 {
                    if before.index_of(hp) is None {
                        let k = choose|k: int| 0 <= k < list.len() && list[k] == x as usize;
                        assert(first[k] == x as usize);
                    }
                    assert(first.contains(x as usize));
                    assert(root_children.contains(x as usize));
                }
                assert(base.contains(x as usize));
                let to_q = nodes[q].children();
                if q == p {
                    assert(to_q == with_item(base, c as usize));
                    if !base.contains(c as usize) {
                        let k = choose|k: int| 0 <= k < base.len() && base[k] == x as usize;
                        assert(to_q[k] == x as usize);
                    }
                } else {
                    assert(to_q == base);
                }
                lemma_edge_of(after, q, x);
            }
        }
    }
}

/// A taxonomy that has grown by insertions from a taxonomy in which every
/// node but the root has a parent is such a taxonomy.
pub proof fn lemma_grown_parented(
    start: MultiTree,
    tree: MultiTree,
    edges: Seq<(Seq<char>, Seq<char>)>,
)
    requires
        start.wf(),
        parented(start),
        grown(start, tree, edges),
    ensures
        parented(tree),
    decreases edges.len(),
{
    if edges.len() == 0 {
        assert forall|x: int| 0 < x < tree.nodes().len() implies #[trigger] has_parent(tree, x) by {
            assert(has_parent(start, x));
            let q = choose|q: int| #[trigger] start.edge(q, x);
            lemma_edge_holds(start, q, x);
            lemma_edge_of(tree, q, x);
        }
    } else {
        let mid = choose|mid: MultiTree|
            mid.wf() && grown(start, mid, edges.drop_last()) && #[trigger] insertion(
                mid,
                tree,
                edges.last().0,
                edges.last().1,
            );
        lemma_grown_parented(start, mid, edges.drop_last());
        lemma_insertion_parented(mid, tree, edges.last().0, edges.last().1);
    }
}

/// The taxonomy that the sub-relations of a file make from a root can be
/// labelled if its sub-relations do not run in a circle and the visits
/// of a walk from its root can be counted.
pub proof fn lemma_acyclic_can_be_labelled(
    tree: MultiTree,
    root: Seq<char>,
    edges: Seq<(Seq<char>, Seq<char>)>,
)
    requires
        grown_from_root(tree, root, edges),
        acyclic(tree),
        tree.countable(),
    ensures
        can_be_labelled(tree),
{
    let start = choose|start: MultiTree|
        start.wf() && start.nodes().len() == 1 && start.nodes()[0].data() == root
            && start.nodes()[0].children().len() == 0 && #[trigger] grown(start, tree, edges);
    lemma_grown_parented(start, tree, edges);
    lemma_acyclic_is_rooted(tree);
}

/// Whether a list of sub-relations says that the node with the hash
/// `lower` is directly below the node with the hash `upper`.
pub open spec fn linked(edges: Seq<(Seq<char>, Seq<char>)>, upper: StrHash, lower: StrHash) -> bool {
    exists|i: int|
        0 <= i < edges.len() && hash_of_text((#[trigger] edges[i]).1) == upper && hash_of_text(
            edges[i].0,
        ) == lower
}

/// Whether a list of hashes is a circle of a list of sub-relations: each
/// hash but the first is said to be directly below the one before it,
/// and the last is the first.
pub open spec fn is_file_circle(edges: Seq<(Seq<char>, Seq<char>)>, chain: Seq<StrHash>) -> bool {
    &&& chain.len() >= 2
    &&& chain[0] == chain.last()
    &&& forall|t: int| 0 <= t < chain.len() - 1 ==> linked(edges, #[trigger] chain[t], chain[t + 1])
}

/// Whether the sub-relations of a list do not run in a circle.
pub open spec fn file_acyclic(edges: Seq<(Seq<char>, Seq<char>)>) -> bool {
    forall|chain: Seq<StrHash>| !#[trigger] is_file_circle(edges, chain)
}

/// Whether every direct sub-relation of a taxonomy but those of its root
/// is one that a list of sub-relations says.
pub open spec fn from_file(tree: MultiTree, edges: Seq<(Seq<char>, Seq<char>)>) -> bool {
    forall|p: int, c: int| #[trigger]
        tree.edge(p, c) && p != 0 ==> linked(edges, tree.nodes()[p].hash(), tree.nodes()[c].hash())
}

/// What a list of sub-relations says, the list with one more says too.
proof fn lemma_linked_more(edges: Seq<(Seq<char>, Seq<char>)>, upper: StrHash, lower: StrHash)
    requires
        edges.len() > 0,
        linked(edges.drop_last(), upper, lower),
    ensures
        linked(edges, upper, lower),
{
    let i = choose|i: int|
        0 <= i < edges.drop_last().len() && hash_of_text((#[trigger] edges.drop_last()[i]).1)
            == upper && hash_of_text(edges.drop_last()[i].0) == lower;
    assert(edges[i] == edges.drop_last()[i]);
}

/// An insertion makes no direct sub-relation, but those of the root,
/// that the sub-relations with the inserted one do not say.
#[verifier::rlimit(50)]
proof fn lemma_insertion_from_file(
    before: MultiTree,
    after: MultiTree,
    edges: Seq<(Seq<char>, Seq<char>)>,
)
    requires
        before.wf(),
        edges.len() > 0,
        from_file(before, edges.drop_last()),
        insertion(before, after, edges.last().0, edges.last().1),
    ensures
        from_file(after, edges),
{
    let child = edges.last().0;
    let parent = edges.last().1;
    let hc = hash_of_text(child);
    let hp = hash_of_text(parent);
    let old_nodes = before.nodes();
    let nodes = after.nodes();
    let n = old_nodes.len() as int;
    before.lemma_nodes_fit();
    after.lemma_nodes_fit();
    assert forall|q: int, x: int| #[trigger] after.edge(q, x) && q != 0 implies linked(
        edges,
        nodes[q].hash(),
        nodes[x].hash(),
    ) by {
        lemma_edge_holds(after, q, x);
        if hc == hp || hc == old_nodes[0].hash() {
            lemma_edge_of(before, q, x);
            lemma_linked_more(edges, nodes[q].hash(), nodes[x].hash());
        } else {
            let p = match before.index_of(hp) {
                Some(p) => p,
                None => n,
            };
            let c = match before.index_of(hc) {
                Some(c) => c,
                None => if before.index_of(hp) is None {
                    n + 1
                } else {
                    n
                },
            };
            let base = if q < n {
                old_nodes[q].children()
            } else {
                Seq::<usize>::empty()
            };
            let to_q = nodes[q].children();
            assert(to_q == (if q == p {
                with_item(base, c as usize)
            } else {
                base
            }));
            let k = choose|k: int| 0 <= k < to_q.len() && to_q[k] == x as usize;
            if q == p && x == c {
                assert(edges[edges.len() - 1] == edges.last());
                assert(linked(edges, hp, hc));
            } else {
                if q == p && !base.contains(c as usize) {
                    assert(k < base.len());
                }
                assert(base[k] == x as usize);
                assert(q < n);
                assert(0 < old_nodes[q].children()[k] < n);
                lemma_edge_of(before, q, x);
                assert(nodes[q].hash() == old_nodes[q].hash());
                assert(nodes[x].hash() == old_nodes[x].hash());
                lemma_linked_more(edges, nodes[q].hash(), nodes[x].hash());
            }
        }
    }
}

/// A taxonomy that has grown from a root alone has no direct
/// sub-relation, but those of the root, that the inserted sub-relations
/// do not say.
proof fn lemma_grown_from_file(
    start: MultiTree,
    tree: MultiTree,
    edges: Seq<(Seq<char>, Seq<char>)>,
)
    requires
        start.wf(),
        start.nodes().len() == 1,
        grown(start, tree, edges),
    ensures
        from_file(tree, edges),
    decreases edges.len(),
{
    if edges.len() == 0 {
        assert forall|p: int, c: int| #[trigger] tree.edge(p, c) && p != 0 implies linked(
            edges,
            tree.nodes()[p].hash(),
            tree.nodes()[c].hash(),
        ) by {}
    } else {
        let mid = choose|mid: MultiTree|
            mid.wf() && grown(start, mid, edges.drop_last()) && #[trigger] insertion(
                mid,
                tree,
                edges.last().0,
                edges.last().1,
            );
        lemma_grown_from_file(start, mid, edges.drop_last());
        lemma_insertion_from_file(mid, tree, edges);
    }
}

/// A taxonomy whose direct sub-relations, but those of the root, are
/// said by sub-relations that do not run in a circle has no circle.
pub proof fn lemma_file_acyclic(tree: MultiTree, edges: Seq<(Seq<char>, Seq<char>)>)
    requires
        tree.wf(),
        from_file(tree, edges),
        file_acyclic(edges),
    ensures
        acyclic(tree),
{
    assert forall|path: Seq<int>| !#[trigger] is_circle(tree, path) by {
        if is_circle(tree, path) {
            let chain = Seq::new(path.len(), |t: int| tree.nodes()[path[t]].hash());
            assert forall|t: int| 0 <= t < chain.len() - 1 implies linked(
                edges,
                #[trigger] chain[t],
                chain[t + 1],
            ) by {
                assert(tree.edge(path[t], path[t + 1]));
                if t > 0 {
                    assert(tree.edge(path[t - 1], path[t - 1 + 1]));
                    lemma_child_is_no_root(tree, path[t - 1], path[t]);
                } else {
                    let last = path.len() - 2;
                    assert(tree.edge(path[last], path[last + 1]));
                    lemma_child_is_no_root(tree, path[last], path[last + 1]);
                }
            }
            assert(is_file_circle(edges, chain));
        }
    }
}

/// The root is no direct sub-node.
proof fn lemma_child_is_no_root(tree: MultiTree, p: int, c: int)
    requires
        tree.wf(),
        tree.edge(p, c),
    ensures
        c != 0,
{
    let list = tree.nodes()[p].children();
    let k = choose|k: int| 0 <= k < list.len() && #[trigger] list[k] == c;
    assert(0 < tree.nodes()[p].children()[k]);
}

/// The taxonomy that sub-relations make from a root can be labelled if
/// the sub-relations do not run in a circle and the visits of a walk from
/// the root can be counted.
pub proof fn lemma_acyclic_file_can_be_labelled(
    tree: MultiTree,
    root: Seq<char>,
    edges: Seq<(Seq<char>, Seq<char>)>,
)
    requires
        grown_from_root(tree, root, edges),
        file_acyclic(edges),
        tree.countable(),
    ensures
        acyclic(tree),
        tree.rooted(),
        can_be_labelled(tree),
{
    let start = choose|start: MultiTree|
        start.wf() && start.nodes().len() == 1 && start.nodes()[0].data() == root
            && start.nodes()[0].children().len() == 0 && #[trigger] grown(start, tree, edges);
    lemma_grown_from_file(start, tree, edges);
    lemma_file_acyclic(tree, edges);
    lemma_acyclic_can_be_labelled(tree, root, edges);
}

/// Whether a list of hashes is a chain of a list of sub-relations: each
/// hash but the first is said to be directly below the one before it.
pub open spec fn is_file_chain(edges: Seq<(Seq<char>, Seq<char>)>, chain: Seq<StrHash>) -> bool {
    &&& chain.len() >= 1
    &&& forall|t: int| 0 <= t < chain.len() - 1 ==> linked(edges, #[trigger] chain[t], chain[t + 1])
}

/// Whether a list of sub-relations says, directly or by a chain, that the
/// node with the hash `lower` is the node with the hash `upper` or below
/// it.
pub open spec fn file_below(edges: Seq<(Seq<char>, Seq<char>)>, upper: StrHash, lower: StrHash) -> bool {
    exists|chain: Seq<StrHash>| #[trigger]
        is_file_chain(edges, chain) && chain[0] == upper && chain.last() == lower
}

/// Whether no sub-relation of a list puts the root below a node.
pub open spec fn root_on_top(root: StrHash, edges: Seq<(Seq<char>, Seq<char>)>) -> bool {
    forall|i: int| 0 <= i < edges.len() ==> hash_of_text((#[trigger] edges[i]).0) != root
}

/// Whether a taxonomy has every sub-relation of a list, but those that
/// have the root at an end or put a node below itself, as a direct
/// sub-relation.
pub open spec fn holds_file(tree: MultiTree, edges: Seq<(Seq<char>, Seq<char>)>) -> bool {
    forall|i: int|
        0 <= i < edges.len() && hash_of_text((#[trigger] edges[i]).0) != hash_of_text(edges[i].1)
            && hash_of_text(edges[i].0) != tree.nodes()[0].hash() && hash_of_text(edges[i].1)
            != tree.nodes()[0].hash() ==> has_edge(
            tree,
            hash_of_text(edges[i].1),
            hash_of_text(edges[i].0),
        )
}

/// Whether the node with the hash `lower` is a direct sub-node of the
/// node with the hash `upper`.
pub open spec fn has_edge(tree: MultiTree, upper: StrHash, lower: StrHash) -> bool {
    exists|p: int, c: int| #[trigger]
        tree.edge(p, c) && tree.nodes()[p].hash() == upper && tree.nodes()[c].hash() == lower
}

/// An insertion keeps the direct sub-relations of the nodes other than
/// the root, and makes the inserted one.
#[verifier::rlimit(50)]
proof fn lemma_insertion_holds_file(
    before: MultiTree,
    after: MultiTree,
    edges: Seq<(Seq<char>, Seq<char>)>,
)
    requires
        before.wf(),
        edges.len() > 0,
        holds_file(before, edges.drop_last()),
        insertion(before, after, edges.last().0, edges.last().1),
    ensures
        after.nodes().len() >= 1,
        after.nodes()[0].hash() == before.nodes()[0].hash(),
        holds_file(after, edges),
{
    let child = edges.last().0;
    let parent = edges.last().1;
    let hc = hash_of_text(child);
    let hp = hash_of_text(parent);
    let old_nodes = before.nodes();
    let nodes = after.nodes();
    let n = old_nodes.len() as int;
    before.lemma_nodes_fit();
    after.lemma_nodes_fit();
    assert(nodes[0].hash() == old_nodes[0].hash());
    assert forall|i: int|
        0 <= i < edges.len() && hash_of_text((#[trigger] edges[i]).0) != hash_of_text(edges[i].1)
            && hash_of_text(edges[i].0) != nodes[0].hash() && hash_of_text(edges[i].1)
            != nodes[0].hash() implies has_edge(
        after,
        hash_of_text(edges[i].1),
        hash_of_text(edges[i].0),
    ) by {
        if i < edges.len() - 1 {
            assert(edges.drop_last()[i] == edges[i]);
            let upper = hash_of_text(edges[i].1);
            let lower = hash_of_text(edges[i].0);
            assert(has_edge(before, upper, lower));
            let (q, x) = choose|q: int, x: int| #[trigger]
                before.edge(q, x) && old_nodes[q].hash() == upper && old_nodes[x].hash()
                    == lower;
            assert(q != 0);
            lemma_edge_holds(before, q, x);
            let list = old_nodes[q].children();
            let k = choose|k: int| 0 <= k < list.len() && list[k] == x as usize;
            if hc == hp || hc == old_nodes[0].hash() {
                lemma_edge_of(after, q, x);
            } else {
                let p = match before.index_of(hp) {
                    Some(p) => p,
                    None => n,
                };
                let c = match before.index_of(hc) {
                    Some(c) => c,
                    None => if before.index_of(hp) is None {
                        n + 1
                    } else {
                        n
                    },
                };
                let to_q = nodes[q].children();
                assert(to_q == (if q == p {
                    with_item(list, c as usize)
                } else {
                    list
                }));
                assert(to_q[k] == x as usize);
                lemma_edge_of(after, q, x);
                assert(nodes[q].hash() == old_nodes[q].hash());
                assert(nodes[x].hash() == old_nodes[x].hash());
            }
            assert(after.edge(q, x) && nodes[q].hash() == upper && nodes[x].hash() == lower);
        } else {
            assert(edges[i] == edges.last());
            let p = match before.index_of(hp) {
                Some(p) => p,
                None => n,
            };
            let c = match before.index_of(hc) {
                Some(c) => c,
                None => if before.index_of(hp) is None {
                    n + 1
                } else {
                    n
                },
            };
            let base = if p == 0 {
                nodes[0].children()
            } else if p < n {
                old_nodes[p].children()
            } else {
                Seq::<usize>::empty()
            };
            assert(p != 0) by {
                if p == 0 {
                    assert(nodes[p].hash() == hp);
                }
            }
            let to_p = nodes[p].children();
            assert(to_p == with_item(base, c as usize));
            if !base.contains(c as usize) {
                assert(to_p[to_p.len() - 1] == c as usize);
            }
            lemma_edge_of(after, p, c);
            assert(after.edge(p, c) && nodes[p].hash() == hp && nodes[c].hash() == hc);
        }
    }
}

/// A taxonomy that has grown from a root alone has the inserted
/// sub-relations, but those that have the root at an end or put a node
/// below itself, as direct sub-relations.
proof fn lemma_grown_holds_file(
    start: MultiTree,
    tree: MultiTree,
    edges: Seq<(Seq<char>, Seq<char>)>,
)
    requires
        start.wf(),
        grown(start, tree, edges),
    ensures
        tree.nodes().len() >= 1,
        tree.nodes()[0].hash() == start.nodes()[0].hash(),
        holds_file(tree, edges),
    decreases edges.len(),
{
    if edges.len() > 0 {
        let mid = choose|mid: MultiTree|
            mid.wf() && grown(start, mid, edges.drop_last()) && #[trigger] insertion(
                mid,
                tree,
                edges.last().0,
                edges.last().1,
            );
        lemma_grown_holds_file(start, mid, edges.drop_last());
        lemma_insertion_holds_file(mid, tree, edges);
    }
}

/// The hashes of the nodes of a list.
pub open spec fn hashes(tree: MultiTree, path: Seq<int>) -> Seq<StrHash> {
    Seq::new(path.len(), |t: int| tree.nodes()[path[t]].hash())
}

/// A chain of direct sub-relations of a taxonomy that does not start at
/// the root is a chain of the sub-relations from which the taxonomy has
/// its direct sub-relations.
proof fn lemma_path_is_chain(tree: MultiTree, edges: Seq<(Seq<char>, Seq<char>)>, path: Seq<int>)
    requires
        tree.wf(),
        from_file(tree, edges),
        tree.is_path(path),
        path[0] != 0,
    ensures
        is_file_chain(edges, hashes(tree, path)),
{
    let chain = hashes(tree, path);
    assert forall|t: int| 0 <= t < chain.len() - 1 implies linked(
        edges,
        #[trigger] chain[t],
        chain[t + 1],
    ) by {
        assert(tree.edge(path[t], path[t + 1]));
        if t > 0 {
            assert(tree.edge(path[t - 1], path[t - 1 + 1]));
            lemma_child_is_no_root(tree, path[t - 1], path[t]);
        }
    }
}

/// A chain of sub-relations that a taxonomy has as direct sub-relations
/// is a chain of direct sub-relations of the taxonomy, from the node of
/// its first hash to the node of its last.
proof fn lemma_chain_is_path(
    tree: MultiTree,
    edges: Seq<(Seq<char>, Seq<char>)>,
    chain: Seq<StrHash>,
    b: int,
) -> (path: Seq<int>)
    requires
        tree.wf(),
        holds_file(tree, edges),
        file_acyclic(edges),
        root_on_top(tree.nodes()[0].hash(), edges),
        is_file_chain(edges, chain),
        0 < b < tree.nodes().len(),
        tree.nodes()[b].hash() == chain[0],
    ensures
        tree.is_path(path),
        path[0] == b,
        0 < path.last() < tree.nodes().len(),
        tree.nodes()[path.last()].hash() == chain.last(),
    decreases chain.len(),
{
    if chain.len() == 1 {
        let path = seq![b];
        assert(tree.is_path(path));
        path
    } else {
        let shorter = chain.drop_last();
        assert forall|t: int| 0 <= t < shorter.len() - 1 implies linked(
            edges,
            #[trigger] shorter[t],
            shorter[t + 1],
        ) by {
            assert(linked(edges, chain[t], chain[t + 1]));
        }
        let rest = lemma_chain_is_path(tree, edges, shorter, b);
        let top = rest.last();
        let t = chain.len() - 2;
        assert(linked(edges, chain[t], chain[t + 1]));
        let i = choose|i: int|
            0 <= i < edges.len() && hash_of_text((#[trigger] edges[i]).1) == chain[t]
                && hash_of_text(edges[i].0) == chain[t + 1];
        let upper = chain[t];
        let lower = chain[t + 1];
        assert(upper == shorter.last());
        assert(upper != lower) by {
            if upper == lower {
                let circle = seq![upper, lower];
                assert(linked(edges, circle[0], circle[1]));
                assert(is_file_circle(edges, circle));
            }
        }
        assert(upper != tree.nodes()[0].hash()) by {
            assert(tree.nodes()[top].hash() == upper);
            assert(tree.nodes()[0].hash() != tree.nodes()[top].hash());
        }
        assert(has_edge(tree, upper, lower));
        let (p, c) = choose|p: int, c: int| #[trigger]
            tree.edge(p, c) && tree.nodes()[p].hash() == upper && tree.nodes()[c].hash() == lower;
        assert(p == top) by {
            if p < top {
                assert(tree.nodes()[p].hash() != tree.nodes()[top].hash());
            } else if top < p {
                assert(tree.nodes()[top].hash() != tree.nodes()[p].hash());
            }
        }
        lemma_child_is_no_root(tree, p, c);
        let path = rest.push(c);
        assert forall|s: int| 0 <= s < path.len() - 1 implies tree.edge(
            #[trigger] path[s],
            path[s + 1],
        ) by {
            if s < rest.len() - 1 {
                assert(tree.edge(rest[s], rest[s + 1]));
            }
        }
        assert(tree.is_path(path));
        path
    }
}

/// The containment test answers what the file says. In the labelled
/// taxonomy that the sub-relations of a file make from a root, where the
/// sub-relations do not run in a circle and none puts the root below a
/// node, some label of a node lies within some label of a node other
/// than the root exactly if the sub-relations say, directly or by a
/// chain, that the one is the other or below it.
pub proof fn lemma_file_containment(
    tree: MultiTree,
    root: Seq<char>,
    lines: Seq<Seq<u8>>,
    kind: TaxonomyKind,
    a: int,
    b: int,
)
    requires
        taxonomy_of(tree, root, lines, kind),
        file_acyclic(file_edges(lines, kind)),
        root_on_top(hash_of_text(root), file_edges(lines, kind)),
        0 <= a < tree.nodes().len(),
        0 < b < tree.nodes().len(),
    ensures
        tree.encloses(b, a) <==> file_below(
            file_edges(lines, kind),
            tree.nodes()[b].hash(),
            tree.nodes()[a].hash(),
        ),
{
    let edges = file_edges(lines, kind);
    let (start, bare) = choose|start: MultiTree, bare: MultiTree|
        start.wf() && start.nodes().len() == 1 && start.nodes()[0].data() == root
            && start.nodes()[0].children().len() == 0 && #[trigger] grown(start, bare, edges)
            && #[trigger] bare.same_graph(&tree);
    assert(start.nodes()[0].hash() == hash_of_text(start.nodes()[0].data()));
    tree.lemma_walked_label(0, 0);
    assert(tree.same_graph(&bare)) by {
        assert forall|i: int| 0 <= i < tree.nodes().len() implies (#[trigger] bare.nodes()[i]).data()
            == tree.nodes()[i].data() && bare.nodes()[i].hash() == tree.nodes()[i].hash()
            && bare.nodes()[i].children() == tree.nodes()[i].children() by {
            assert(tree.nodes()[i].data() == bare.nodes()[i].data());
        }
    }
    tree.lemma_same_graph_wf(&bare);
    lemma_grown_from_file(start, bare, edges);
    lemma_grown_holds_file(start, bare, edges);
    tree.lemma_interval_containment(a, b);
    tree.lemma_same_graph_reaches(&bare, b, a);
    assert(bare.nodes()[b].hash() == tree.nodes()[b].hash());
    assert(bare.nodes()[a].hash() == tree.nodes()[a].hash());
    if bare.reaches(b, a) {
        let path = choose|path: Seq<int>| #[trigger]
            bare.is_path(path) && path[0] == b && path.last() == a;
        lemma_path_is_chain(bare, edges, path);
        let chain = hashes(bare, path);
        assert(is_file_chain(edges, chain) && chain[0] == bare.nodes()[b].hash() && chain.last()
            == bare.nodes()[a].hash());
    }
    if file_below(edges, tree.nodes()[b].hash(), tree.nodes()[a].hash()) {
        let chain = choose|chain: Seq<StrHash>| #[trigger]
            is_file_chain(edges, chain) && chain[0] == tree.nodes()[b].hash() && chain.last()
                == tree.nodes()[a].hash();
        let path = lemma_chain_is_path(bare, edges, chain, b);
        let end = path.last();
        assert(end == a) by {
            if end < a {
                assert(bare.nodes()[end].hash() != bare.nodes()[a].hash());
            } else if a < end {
                assert(bare.nodes()[a].hash() != bare.nodes()[end].hash());
            }
        }
        assert(bare.is_path(path) && path[0] == b && path.last() == a);
    }
}

} // verus!
