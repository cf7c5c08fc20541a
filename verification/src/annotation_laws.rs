//! What holds of the interval annotations of the triples that a taxonomy
//! file asserts.

use vstd::prelude::*;
use crate::backend::empty_db;
use crate::backend::ColumnFamily;
use crate::backend::DbView;
use crate::binary_encoder::lemma_quad_round_trip;
use crate::binary_encoder::quad_key;
use crate::binary_encoder::QuadEncoding;
use crate::binary_encoder::TYPE_CLASS;
use crate::index::lemma_with_quad_tables;
use crate::index::view_wf;
use crate::loader::batch_stage;
use crate::loader::batched;
use crate::loader::inserts_effect;
use crate::loader::key_annotation;
use crate::loader::lemma_empty_coherent;
use crate::loader::staged;
use crate::loader::valued;
use crate::loader::IntervalPlacement;
use crate::model::Quad;
use crate::model::Term;
use crate::numeric_encoder::encode_model_quad;
use crate::storage::merged;
use crate::writer::lemma_insert_effect;
use crate::interval_encoder::interval_annotation;
use crate::interval_encoder::relation_annotation;
use crate::numeric_encoder::hash_of_text;
use crate::numeric_encoder::EncodedTerm;
use crate::numeric_encoder::StrHash;
use crate::taxonomy::insertion;
use crate::taxonomy::MultiTree;
use crate::taxonomy_file::file_edges;
use crate::taxonomy_file::grown;
use crate::taxonomy_file::taxonomy_of;
use crate::taxonomy_file::TaxonomyKind;
use crate::vocab::LUBM_SUB_ORGANIZATION;
use crate::vocab::RDFS_SUB_CLASS_OF;

verus! {

/// The encoded named node of an IRI.
pub open spec fn node_term(iri: Seq<char>) -> EncodedTerm {
    EncodedTerm::NamedNode { iri_id: hash_of_text(iri) }
}

/// Whether a sub-relation makes nodes of both its ends wherever it is
/// inserted into a taxonomy with a root: its ends differ and its lower
/// end is not the root.
pub open spec fn proper_edge(root: Seq<char>, edge: (Seq<char>, Seq<char>)) -> bool {
    hash_of_text(edge.0) != hash_of_text(edge.1) && hash_of_text(edge.0) != hash_of_text(root)
}

/// Whether a taxonomy has a node with a hash.
pub open spec fn has_node(tree: MultiTree, h: StrHash) -> bool {
    exists|i: int| 0 <= i < tree.nodes().len() && (#[trigger] tree.nodes()[i]).hash() == h
}

/// An insertion keeps the root and the nodes that were there.
proof fn lemma_insertion_keeps(
    before: MultiTree,
    after: MultiTree,
    child: Seq<char>,
    parent: Seq<char>,
    h: StrHash,
)
    requires
        before.wf(),
        insertion(before, after, child, parent),
    ensures
        after.nodes().len() >= 1,
        after.nodes()[0].hash() == before.nodes()[0].hash(),
        has_node(before, h) ==> has_node(after, h),
{
    assert(after.nodes()[0].hash() == before.nodes()[0].hash());
    if has_node(before, h) {
        let i = choose|i: int|
            0 <= i < before.nodes().len() && (#[trigger] before.nodes()[i]).hash() == h;
        assert(0 <= i < after.nodes().len() && after.nodes()[i].hash() == h);
    }
}

/// The insertion of a proper sub-relation makes nodes of both its ends.
proof fn lemma_insertion_adds(
    before: MultiTree,
    after: MultiTree,
    child: Seq<char>,
    parent: Seq<char>,
)
    requires
        before.wf(),
        insertion(before, after, child, parent),
        hash_of_text(child) != hash_of_text(parent),
        hash_of_text(child) != before.nodes()[0].hash(),
    ensures
        has_node(after, hash_of_text(child)),
        has_node(after, hash_of_text(parent)),
{
    let hp = hash_of_text(parent);
    let hc = hash_of_text(child);
    let n = before.nodes().len() as int;
    let p = match before.index_of(hp) {
        Some(p) => p,
        None => n,
    };
    let c = match before.index_of(hc) {
        Some(c) => c,
        None => if before.index_of(hp) is None {
            n + 1
        } else {
            n
        },
    };
    assert(0 <= p < after.nodes().len() && after.nodes()[p].hash() == hp);
    assert(0 <= c < after.nodes().len() && after.nodes()[c].hash() == hc);
}

/// A taxonomy that has grown from another has its root, and nodes of both
/// ends of every proper sub-relation that was inserted.
proof fn lemma_grown_nodes(
    start: MultiTree,
    tree: MultiTree,
    edges: Seq<(Seq<char>, Seq<char>)>,
    i: int,
)
    requires
        start.wf(),
        grown(start, tree, edges),
    ensures
        tree.nodes().len() >= 1,
        tree.nodes()[0].hash() == start.nodes()[0].hash(),
        0 <= i < edges.len() && hash_of_text(edges[i].0) != hash_of_text(edges[i].1)
            && hash_of_text(edges[i].0) != start.nodes()[0].hash() ==> has_node(
            tree,
            hash_of_text(edges[i].0),
        ) && has_node(tree, hash_of_text(edges[i].1)),
    decreases edges.len(),
{
    if edges.len() > 0 {
        let mid = choose|mid: MultiTree|
            mid.wf() && grown(start, mid, edges.drop_last()) && #[trigger] insertion(
                mid,
                tree,
                edges.last().0,
                edges.last().1,
            );
        lemma_grown_nodes(start, mid, edges.drop_last(), i);
        if 0 <= i < edges.len() {
            lemma_insertion_keeps(mid, tree, edges.last().0, edges.last().1, hash_of_text(edges[i].0));
            lemma_insertion_keeps(mid, tree, edges.last().0, edges.last().1, hash_of_text(edges[i].1));
            if i == edges.len() - 1 {
                if hash_of_text(edges[i].0) != hash_of_text(edges[i].1) && hash_of_text(edges[i].0)
                    != start.nodes()[0].hash() {
                    lemma_insertion_adds(mid, tree, edges.last().0, edges.last().1);
                }
            } else {
                assert(edges.drop_last()[i] == edges[i]);
            }
        } else {
            lemma_insertion_keeps(mid, tree, edges.last().0, edges.last().1, hash_of_text(edges.last().0));
        }
    }
}

/// The taxonomy of a file has nodes of both ends of every proper
/// sub-relation of the file, and a label for each of them.
pub proof fn lemma_edge_is_labelled(
    tree: MultiTree,
    root: Seq<char>,
    lines: Seq<Seq<u8>>,
    kind: TaxonomyKind,
    i: int,
)
    requires
        taxonomy_of(tree, root, lines, kind),
        0 <= i < file_edges(lines, kind).len(),
        proper_edge(root, file_edges(lines, kind)[i]),
    ensures
        tree.index_of(hash_of_text(file_edges(lines, kind)[i].0)) matches Some(c) && 0 <= c
            < tree.nodes().len() && tree.nodes()[c].intervals().len() > 0,
        tree.index_of(hash_of_text(file_edges(lines, kind)[i].1)) matches Some(p) && 0 <= p
            < tree.nodes().len() && tree.nodes()[p].intervals().len() > 0,
{
    let edges = file_edges(lines, kind);
    let (start, unlabelled) = choose|start: MultiTree, unlabelled: MultiTree|
        start.wf() && start.nodes().len() == 1 && start.nodes()[0].data() == root
            && start.nodes()[0].children().len() == 0 && #[trigger] grown(start, unlabelled, edges)
            && #[trigger] unlabelled.same_graph(&tree);
    assert(start.nodes()[0].hash() == hash_of_text(start.nodes()[0].data()));
    lemma_grown_nodes(start, unlabelled, edges, i);
    let hc = hash_of_text(edges[i].0);
    let hp = hash_of_text(edges[i].1);
    let c = choose|c: int|
        0 <= c < unlabelled.nodes().len() && (#[trigger] unlabelled.nodes()[c]).hash() == hc;
    let p = choose|p: int|
        0 <= p < unlabelled.nodes().len() && (#[trigger] unlabelled.nodes()[p]).hash() == hp;
    assert(tree.nodes()[c].hash() == hc);
    assert(tree.nodes()[p].hash() == hp);
    let found_c = tree.index_of(hc)->Some_0;
    let found_p = tree.index_of(hp)->Some_0;
    assert(tree.nodes()[found_c].intervals().len() > 0);
    assert(tree.nodes()[found_p].intervals().len() > 0);
}

/// A triple that says what a taxonomy file says, that a class is a
/// sub-class or a sub-organization of another, has an annotation from the
/// taxonomy of classes of the file: it is not empty and starts with the
/// tag of that taxonomy.
pub proof fn lemma_asserted_edge_is_annotated(
    class_tree: MultiTree,
    property_tree: MultiTree,
    root: Seq<char>,
    lines: Seq<Seq<u8>>,
    predicate: Seq<char>,
    i: int,
)
    requires
        taxonomy_of(class_tree, root, lines, TaxonomyKind::Class),
        0 <= i < file_edges(lines, TaxonomyKind::Class).len(),
        proper_edge(root, file_edges(lines, TaxonomyKind::Class)[i]),
        predicate == RDFS_SUB_CLASS_OF@ || predicate == LUBM_SUB_ORGANIZATION@,
    ensures
        ({
            let edge = file_edges(lines, TaxonomyKind::Class)[i];
            let note = interval_annotation(
                node_term(edge.0),
                node_term(predicate),
                node_term(edge.1),
                class_tree,
                property_tree,
            );
            note.len() > 0 && note[0] == TYPE_CLASS
        }),
{
    let edge = file_edges(lines, TaxonomyKind::Class)[i];
    lemma_edge_is_labelled(class_tree, root, lines, TaxonomyKind::Class, i);
    let note = relation_annotation(TYPE_CLASS, class_tree, node_term(edge.0), node_term(edge.1));
    assert(note.len() > 0 && note[0] == TYPE_CLASS);
    assert(interval_annotation(
        node_term(edge.0),
        node_term(predicate),
        node_term(edge.1),
        class_tree,
        property_tree,
    ) == note);
}

/// Whether a quad is the triple of the default graph that says that the
/// node `child` stands in the relation `predicate` to the node `parent`.
pub open spec fn says(q: Quad, child: Seq<char>, predicate: Seq<char>, parent: Seq<char>) -> bool {
    &&& q.subject matches Term::NamedNode(s) && s.iri@ == child
    &&& q.predicate matches Term::NamedNode(p) && p.iri@ == predicate
    &&& q.object matches Term::NamedNode(o) && o.iri@ == parent
    &&& q.graph_name is DefaultGraph
}

/// What was inserted, first to last, has the key of each triple of the
/// default graph among the rows of the first index of the default graph.
proof fn lemma_inserted_key(v: DbView, quads: Seq<Quad>, j: int)
    requires
        view_wf(v),
        0 <= j < quads.len(),
        quads[j].graph_name is DefaultGraph,
    ensures
        view_wf(inserts_effect(v, quads)),
        inserts_effect(v, quads)[ColumnFamily::Dspo].contains_key(
            quad_key(QuadEncoding::Dspo, encode_model_quad(quads[j])),
        ),
    decreases quads.len(),
{
    let before = inserts_effect(v, quads.drop_last());
    let q = quads.last();
    let e = encode_model_quad(q);
    lemma_inserts_view(v, quads.drop_last());
    lemma_insert_effect(before, q);
    lemma_with_quad_tables(before, e);
    assert(QuadEncoding::Dspo.spec_family() == ColumnFamily::Dspo);
    if j < quads.len() - 1 {
        lemma_inserted_key(v, quads.drop_last(), j);
        assert(quads.drop_last()[j] == quads[j]);
    }
}

/// What was inserted gives every column family finitely many rows.
proof fn lemma_inserts_view(v: DbView, quads: Seq<Quad>)
    requires
        view_wf(v),
    ensures
        view_wf(inserts_effect(v, quads)),
    decreases quads.len(),
{
    if quads.len() > 0 {
        lemma_inserts_view(v, quads.drop_last());
        lemma_insert_effect(inserts_effect(v, quads.drop_last()), quads.last());
    }
}

/// A batch that is loaded with the annotations as values gives the row of
/// a triple that says what the taxonomy file says, that a class is a
/// sub-class or a sub-organization of another, a value that is not empty
/// and starts with the tag of the taxonomy of classes, unless the store
/// held the row before.
pub proof fn lemma_asserted_edge_has_value(
    v: DbView,
    quads: Seq<Quad>,
    j: int,
    class_tree: MultiTree,
    property_tree: MultiTree,
    root: Seq<char>,
    lines: Seq<Seq<u8>>,
    predicate: Seq<char>,
    i: int,
)
    requires
        taxonomy_of(class_tree, root, lines, TaxonomyKind::Class),
        0 <= i < file_edges(lines, TaxonomyKind::Class).len(),
        proper_edge(root, file_edges(lines, TaxonomyKind::Class)[i]),
        predicate == RDFS_SUB_CLASS_OF@ || predicate == LUBM_SUB_ORGANIZATION@,
        0 <= j < quads.len(),
        says(
            quads[j],
            file_edges(lines, TaxonomyKind::Class)[i].0,
            predicate,
            file_edges(lines, TaxonomyKind::Class)[i].1,
        ),
        !v[ColumnFamily::Dspo].contains_key(
            quad_key(QuadEncoding::Dspo, encode_model_quad(quads[j])),
        ),
    ensures
        ({
            let key = quad_key(QuadEncoding::Dspo, encode_model_quad(quads[j]));
            let rows = merged(
                batch_stage(quads, class_tree, property_tree, Some(IntervalPlacement::Value)),
                v,
            )[ColumnFamily::Dspo];
            rows.contains_key(key) && rows[key].len() > 0 && rows[key][0] == TYPE_CLASS
        }),
{
    let e = encode_model_quad(quads[j]);
    let key = quad_key(QuadEncoding::Dspo, e);
    let edge = file_edges(lines, TaxonomyKind::Class)[i];
    lemma_empty_coherent();
    lemma_inserted_key(empty_db(), quads, j);
    assert(staged(quads)[ColumnFamily::Dspo].contains_key(key));
    assert(e.wf() && QuadEncoding::Dspo.holds(e));
    lemma_quad_round_trip(QuadEncoding::Dspo, e, Seq::empty());
    assert(key + Seq::<u8>::empty() =~= key);
    assert(e.subject == node_term(edge.0));
    assert(e.predicate == node_term(predicate));
    assert(e.object == node_term(edge.1));
    lemma_asserted_edge_is_annotated(class_tree, property_tree, root, lines, predicate, i);
    let stage = batch_stage(quads, class_tree, property_tree, Some(IntervalPlacement::Value));
    assert(stage[ColumnFamily::Dspo] == valued(
        staged(quads)[ColumnFamily::Dspo],
        QuadEncoding::Dspo,
        class_tree,
        property_tree,
    ));
    assert(stage[ColumnFamily::Dspo].contains_key(key));
    assert(stage[ColumnFamily::Dspo][key] == key_annotation(
        QuadEncoding::Dspo,
        key,
        class_tree,
        property_tree,
    ));
}

/// A load in batches leaves a row of the first index of the default graph
/// that the store held as it was.
proof fn lemma_batched_keeps(
    v: DbView,
    quads: Seq<Quad>,
    size: int,
    class_tree: MultiTree,
    property_tree: MultiTree,
    placement: Option<IntervalPlacement>,
    key: Seq<u8>,
)
    requires
        v[ColumnFamily::Dspo].contains_key(key),
    ensures
        batched(v, quads, size, class_tree, property_tree, placement)[ColumnFamily::Dspo].contains_key(
            key,
        ),
        batched(v, quads, size, class_tree, property_tree, placement)[ColumnFamily::Dspo][key]
            == v[ColumnFamily::Dspo][key],
    decreases quads.len(),
{
    if !(size <= 0 || quads.len() < size) {
        let next = merged(
            batch_stage(quads.take(size), class_tree, property_tree, placement),
            v,
        );
        lemma_batched_keeps(next, quads.skip(size), size, class_tree, property_tree, placement, key);
    }
}

/// A load with the annotations as values, in batches of whatever size,
/// gives the row of a triple that says what the taxonomy file says, that
/// a class is a sub-class or a sub-organization of another, a value that
/// is not empty and starts with the tag of the taxonomy of classes,
/// unless the store held the row before.
pub proof fn lemma_asserted_edge_is_loaded(
    v: DbView,
    quads: Seq<Quad>,
    j: int,
    size: int,
    class_tree: MultiTree,
    property_tree: MultiTree,
    root: Seq<char>,
    lines: Seq<Seq<u8>>,
    predicate: Seq<char>,
    i: int,
)
    requires
        taxonomy_of(class_tree, root, lines, TaxonomyKind::Class),
        0 <= i < file_edges(lines, TaxonomyKind::Class).len(),
        proper_edge(root, file_edges(lines, TaxonomyKind::Class)[i]),
        predicate == RDFS_SUB_CLASS_OF@ || predicate == LUBM_SUB_ORGANIZATION@,
        0 <= j < quads.len(),
        says(
            quads[j],
            file_edges(lines, TaxonomyKind::Class)[i].0,
            predicate,
            file_edges(lines, TaxonomyKind::Class)[i].1,
        ),
        !v[ColumnFamily::Dspo].contains_key(
            quad_key(QuadEncoding::Dspo, encode_model_quad(quads[j])),
        ),
    ensures
        ({
            let key = quad_key(QuadEncoding::Dspo, encode_model_quad(quads[j]));
            let rows = batched(
                v,
                quads,
                size,
                class_tree,
                property_tree,
                Some(IntervalPlacement::Value),
            )[ColumnFamily::Dspo];
            rows.contains_key(key) && rows[key].len() > 0 && rows[key][0] == TYPE_CLASS
        }),
    decreases quads.len(),
{
    let placement = Some(IntervalPlacement::Value);
    let e = encode_model_quad(quads[j]);
    let key = quad_key(QuadEncoding::Dspo, e);
    let edge = file_edges(lines, TaxonomyKind::Class)[i];
    if size <= 0 || quads.len() < size {
        lemma_asserted_edge_has_value(
            v,
            quads,
            j,
            class_tree,
            property_tree,
            root,
            lines,
            predicate,
            i,
        );
    } else {
        let first = quads.take(size);
        let rest = quads.skip(size);
        let stage = batch_stage(first, class_tree, property_tree, placement);
        let next = merged(stage, v);
        if j < size {
            assert(first[j] == quads[j]);
            lemma_asserted_edge_has_value(
                v,
                first,
                j,
                class_tree,
                property_tree,
                root,
                lines,
                predicate,
                i,
            );
            lemma_batched_keeps(next, rest, size, class_tree, property_tree, placement, key);
        } else if next[ColumnFamily::Dspo].contains_key(key) {
            assert(e.wf() && QuadEncoding::Dspo.holds(e));
            lemma_quad_round_trip(QuadEncoding::Dspo, e, Seq::empty());
            assert(key + Seq::<u8>::empty() =~= key);
            assert(e.subject == node_term(edge.0));
            assert(e.predicate == node_term(predicate));
            assert(e.object == node_term(edge.1));
            lemma_asserted_edge_is_annotated(class_tree, property_tree, root, lines, predicate, i);
            assert(stage[ColumnFamily::Dspo] == valued(
                staged(first)[ColumnFamily::Dspo],
                QuadEncoding::Dspo,
                class_tree,
                property_tree,
            ));
            assert(stage[ColumnFamily::Dspo].contains_key(key));
            assert(next[ColumnFamily::Dspo][key] == key_annotation(
                QuadEncoding::Dspo,
                key,
                class_tree,
                property_tree,
            ));
            lemma_batched_keeps(next, rest, size, class_tree, property_tree, placement, key);
        } else {
            assert(rest[j - size] == quads[j]);
            lemma_asserted_edge_is_loaded(
                next,
                rest,
                j - size,
                size,
                class_tree,
                property_tree,
                root,
                lines,
                predicate,
                i,
            );
        }
    }
}

} // verus!
