//! The interval annotation of a triple: the labels of the taxonomy that
//! make a schema triple answer containment questions by itself.

use vstd::prelude::*;
use crate::binary_encoder::term_bytes;
use crate::binary_encoder::write_term;
use crate::binary_encoder::TYPE_CLASS;
use crate::binary_encoder::TYPE_PROPERTY;
use crate::binary_encoder::WRITTEN_TERM_MAX_SIZE;
use crate::endian::u16_bytes;
use crate::endian::u64_bytes;
use crate::endian::write_u16;
use crate::endian::write_u64;
use crate::numeric_encoder::hash_of_text;
use crate::numeric_encoder::EncodedTerm;
use crate::numeric_encoder::StrHash;
use crate::taxonomy::parent_is;
use crate::taxonomy::IntervalNode;
use crate::taxonomy::MultiTree;
use crate::vocab::LUBM_SUB_ORGANIZATION;
use crate::vocab::RDFS_DOMAIN;
use crate::vocab::RDFS_RANGE;
use crate::vocab::RDFS_SUB_CLASS_OF;
use crate::vocab::RDFS_SUB_PROPERTY_OF;
use crate::vocab::RDF_TYPE;

verus! {

/// The sixteen bytes of the start and end of a label.
pub open spec fn span_bytes(x: IntervalNode) -> Seq<u8> {
    u64_bytes(x.start) + u64_bytes(x.end)
}

/// The eighteen bytes of a label: start, end and layer.
pub open spec fn label_bytes(x: IntervalNode) -> Seq<u8> {
    u64_bytes(x.start) + u64_bytes(x.end) + u16_bytes(x.layer)
}

/// The spans of the labels of a list that name `parent` as their parent,
/// first to last.
pub open spec fn spans_under(labels: Seq<IntervalNode>, parent: int) -> Seq<u8>
    decreases labels.len(),
{
    if labels.len() == 0 {
        Seq::empty()
    } else if parent_is(labels.last(), parent) {
        spans_under(labels.drop_last(), parent) + span_bytes(labels.last())
    } else {
        spans_under(labels.drop_last(), parent)
    }
}

/// The bytes of the labels of a list, first to last.
pub open spec fn labels_bytes(labels: Seq<IntervalNode>) -> Seq<u8>
    decreases labels.len(),
{
    if labels.len() == 0 {
        Seq::empty()
    } else {
        labels_bytes(labels.drop_last()) + label_bytes(labels.last())
    }
}

/// The node of a taxonomy that a term names, if it is a named node that
/// the taxonomy knows.
pub open spec fn node_of(tree: MultiTree, t: EncodedTerm) -> Option<int> {
    match t {
        EncodedTerm::NamedNode { iri_id } => tree.index_of(iri_id),
        _ => None,
    }
}

/// The annotation of a triple that says that its subject is directly
/// below its object in a taxonomy: the tag of the taxonomy, the spans of
/// the labels of the subject that name the object as parent, and the
/// first label of the object. Empty if the taxonomy lacks the subject or
/// the object, or has no label for the object.
pub open spec fn relation_annotation(tag: u8, tree: MultiTree, s: EncodedTerm, o: EncodedTerm) -> Seq<
    u8,
> {
    match (node_of(tree, s), node_of(tree, o)) {
        (Some(child), Some(parent)) => if tree.nodes()[parent].intervals().len() == 0 {
            Seq::empty()
        } else {
            seq![tag] + spans_under(tree.nodes()[child].intervals(), parent) + label_bytes(
                tree.nodes()[parent].intervals()[0],
            )
        },
        _ => Seq::empty(),
    }
}

/// The most labels that an annotation with a count of one byte holds.
pub const MAX_COUNTED_LABELS: usize = 255;

/// The labels of a class that its annotation holds: all of them, or the
/// first 255 where there are more, so that one byte counts them.
pub open spec fn counted_labels(labels: Seq<IntervalNode>) -> Seq<IntervalNode> {
    if labels.len() > MAX_COUNTED_LABELS {
        labels.subrange(0, MAX_COUNTED_LABELS as int)
    } else {
        labels
    }
}

/// The annotation of a triple whose object is a class: the tag of the
/// taxonomy of classes, the number of labels that follow in one byte, and
/// the labels of the class, at most 255 of them. Empty if the taxonomy
/// lacks the object.
pub open spec fn class_annotation(tree: MultiTree, o: EncodedTerm) -> Seq<u8> {
    match node_of(tree, o) {
        Some(class) => {
            let labels = counted_labels(tree.nodes()[class].intervals());
            seq![TYPE_CLASS, labels.len() as u8] + labels_bytes(labels)
        },
        None => Seq::empty(),
    }
}

/// The interval annotation of a triple.
pub open spec fn interval_annotation(
    s: EncodedTerm,
    p: EncodedTerm,
    o: EncodedTerm,
    class_tree: MultiTree,
    property_tree: MultiTree,
) -> Seq<u8> {
    match p {
        EncodedTerm::NamedNode { iri_id } => if iri_id == hash_of_text(RDFS_SUB_CLASS_OF@) || iri_id
            == hash_of_text(LUBM_SUB_ORGANIZATION@) {
            relation_annotation(TYPE_CLASS, class_tree, s, o)
        } else if iri_id == hash_of_text(RDFS_SUB_PROPERTY_OF@) {
            relation_annotation(TYPE_PROPERTY, property_tree, s, o)
        } else if iri_id == hash_of_text(RDFS_DOMAIN@) || iri_id == hash_of_text(RDFS_RANGE@)
            || iri_id == hash_of_text(RDF_TYPE@) {
            class_annotation(class_tree, o)
        } else {
            Seq::empty()
        },
        _ => Seq::empty(),
    }
}

/// The place of the node that a term names.
fn find_node(tree: &MultiTree, t: &EncodedTerm) -> (r: Option<usize>)
    requires
        tree.wf(),
    ensures
        match r {
            Some(i) => node_of(*tree, *t) == Some(i as int) && i < tree.nodes().len(),
            None => node_of(*tree, *t) is None,
        },
{
    match t {
        EncodedTerm::NamedNode { iri_id } => tree.find(*iri_id),
        _ => None,
    }
}

/// Appends the annotation of a direct sub-relation.
fn write_relation(sink: &mut Vec<u8>, tag: u8, tree: &MultiTree, s: &EncodedTerm, o: &EncodedTerm)
    requires
        tree.wf(),
    ensures
        final(sink)@ == old(sink)@ + relation_annotation(tag, *tree, *s, *o),
{
    let ghost before = sink@;
    let child = match find_node(tree, s) {
        Some(child) => child,
        None => {
            proof {
                assert(sink@ =~= before + Seq::<u8>::empty());
            }
            return ;
        },
    };
    let parent = match find_node(tree, o) {
        Some(parent) => parent,
        None => {
            proof {
                assert(sink@ =~= before + Seq::<u8>::empty());
            }
            return ;
        },
    };
    let outer = tree.get_node(parent).get_interval_nodes();
    if outer.len() == 0 {
        proof {
            assert(sink@ =~= before + Seq::<u8>::empty());
        }
        return ;
    }
    sink.push(tag);
    let inner = tree.get_node(child).get_interval_nodes();
    let mut i: usize = 0;
    proof {
        assert(inner@.subrange(0, 0) =~= Seq::<IntervalNode>::empty());
        assert(sink@ =~= before + seq![tag] + spans_under(inner@.subrange(0, 0), parent as int));
    }
    while i < inner.len()
        invariant
            i <= inner@.len(),
            sink@ == before + seq![tag] + spans_under(inner@.subrange(0, i as int), parent as int),
        decreases inner@.len() - i,
    {
        let ghost part = inner@.subrange(0, i as int);
        let ghost next = inner@.subrange(0, i + 1);
        let ghost so_far = sink@;
        proof {
            assert(next.drop_last() =~= part);
            assert(next.last() == inner@[i as int]);
        }
        let is_under = match inner[i].parent {
            Some(q) => q == parent,
            None => false,
        };
        if is_under {
            write_u64(sink, inner[i].start);
            write_u64(sink, inner[i].end);
            proof {
                assert(sink@ =~= so_far + span_bytes(inner@[i as int]));
                assert(sink@ =~= before + seq![tag] + spans_under(next, parent as int));
            }
        }
        i = i + 1;
    }
    proof {
        assert(inner@.subrange(0, inner@.len() as int) =~= inner@);
    }
    let ghost so_far = sink@;
    write_u64(sink, outer[0].start);
    write_u64(sink, outer[0].end);
    write_u16(sink, outer[0].layer);
    proof {
        assert(sink@ =~= so_far + label_bytes(outer@[0]));
        assert(sink@ =~= before + (seq![tag] + spans_under(inner@, parent as int) + label_bytes(
            outer@[0],
        )));
    }
}

/// Appends the annotation of a triple whose object is a class.
fn write_class(sink: &mut Vec<u8>, tree: &MultiTree, o: &EncodedTerm)
    requires
        tree.wf(),
    ensures
        final(sink)@ == old(sink)@ + class_annotation(*tree, *o),
{
    let ghost before = sink@;
    let class = match find_node(tree, o) {
        Some(class) => class,
        None => {
            proof {
                assert(sink@ =~= before + Seq::<u8>::empty());
            }
            return ;
        },
    };
    let labels = tree.get_node(class).get_interval_nodes();
    let held: usize = if labels.len() > MAX_COUNTED_LABELS {
        MAX_COUNTED_LABELS
    } else {
        labels.len()
    };
    let count: u8 = held as u8;
    sink.push(TYPE_CLASS);
    sink.push(count);
    let ghost head = seq![TYPE_CLASS, count];
    let mut i: usize = 0;
    proof {
        assert(labels@.subrange(0, 0) =~= Seq::<IntervalNode>::empty());
        assert(sink@ =~= before + head + labels_bytes(labels@.subrange(0, 0)));
        assert(counted_labels(labels@) =~= labels@.subrange(0, held as int));
    }
    while i < held
        invariant
            i <= held <= labels@.len(),
            sink@ == before + head + labels_bytes(labels@.subrange(0, i as int)),
        decreases held - i,
    {
        let ghost part = labels@.subrange(0, i as int);
        let ghost next = labels@.subrange(0, i + 1);
        let ghost so_far = sink@;
        proof {
            assert(next.drop_last() =~= part);
            assert(next.last() == labels@[i as int]);
        }
        write_u64(sink, labels[i].start);
        write_u64(sink, labels[i].end);
        write_u16(sink, labels[i].layer);
        proof {
            assert(sink@ =~= so_far + label_bytes(labels@[i as int]));
            assert(sink@ =~= before + head + labels_bytes(next));
        }
        i = i + 1;
    }
    proof {
        assert(sink@ =~= before + (head + labels_bytes(labels@.subrange(0, held as int))));
    }
}

/// The interval annotation of a triple.
pub fn encoded_interval_encoding(
    s: &EncodedTerm,
    p: &EncodedTerm,
    o: &EncodedTerm,
    class_tree: &MultiTree,
    property_tree: &MultiTree,
) -> (bytes: Vec<u8>)
    requires
        class_tree.wf(),
        property_tree.wf(),
    ensures
        bytes@ == interval_annotation(*s, *p, *o, *class_tree, *property_tree),
{
    let mut value: Vec<u8> = Vec::new();
    match p {
        EncodedTerm::NamedNode { iri_id } => {
            let id: u128 = iri_id.hash;
            if id == StrHash::new(RDFS_SUB_CLASS_OF).hash || id == StrHash::new(
                LUBM_SUB_ORGANIZATION,
            ).hash {
                write_relation(&mut value, TYPE_CLASS, class_tree, s, o);
            } else if id == StrHash::new(RDFS_SUB_PROPERTY_OF).hash {
                write_relation(&mut value, TYPE_PROPERTY, property_tree, s, o);
            } else if id == StrHash::new(RDFS_DOMAIN).hash || id == StrHash::new(RDFS_RANGE).hash
                || id == StrHash::new(RDF_TYPE).hash {
                write_class(&mut value, class_tree, o);
            }
        },
        _ => {},
    }
    proof {
        assert(value@ =~= interval_annotation(*s, *p, *o, *class_tree, *property_tree));
    }
    value
}

/// The key of a triple in the order subject, predicate, object, and its interval annotation
/// as the value of the row.
pub fn encode_term_triple_oxiuse_value_spo(
    s: &EncodedTerm,
    p: &EncodedTerm,
    o: &EncodedTerm,
    class_tree: &MultiTree,
    property_tree: &MultiTree,
) -> (row: (Vec<u8>, Vec<u8>))
    requires
        class_tree.wf(),
        property_tree.wf(),
    ensures
        row.0@ == term_bytes(*s) + term_bytes(*p) + term_bytes(*o),
        row.1@ == interval_annotation(*s, *p, *o, *class_tree, *property_tree),
{
    let mut key: Vec<u8> = Vec::with_capacity(3 * WRITTEN_TERM_MAX_SIZE);
    let value = encoded_interval_encoding(s, p, o, class_tree, property_tree);
    write_term(&mut key, s);
    write_term(&mut key, p);
    write_term(&mut key, o);
    proof {
        assert(key@ =~= term_bytes(*s) + term_bytes(*p) + term_bytes(*o));
    }
    (key, value)
}

/// The key of a triple in the order predicate, object, subject, and its interval annotation
/// as the value of the row.
pub fn encode_term_triple_oxiuse_value_pos(
    s: &EncodedTerm,
    p: &EncodedTerm,
    o: &EncodedTerm,
    class_tree: &MultiTree,
    property_tree: &MultiTree,
) -> (row: (Vec<u8>, Vec<u8>))
    requires
        class_tree.wf(),
        property_tree.wf(),
    ensures
        row.0@ == term_bytes(*p) + term_bytes(*o) + term_bytes(*s),
        row.1@ == interval_annotation(*s, *p, *o, *class_tree, *property_tree),
{
    let mut key: Vec<u8> = Vec::with_capacity(3 * WRITTEN_TERM_MAX_SIZE);
    let value = encoded_interval_encoding(s, p, o, class_tree, property_tree);
    write_term(&mut key, p);
    write_term(&mut key, o);
    write_term(&mut key, s);
    proof {
        assert(key@ =~= term_bytes(*p) + term_bytes(*o) + term_bytes(*s));
    }
    (key, value)
}

/// The key of a triple in the order object, subject, predicate, and its interval annotation
/// as the value of the row.
pub fn encode_term_triple_oxiuse_value_osp(
    s: &EncodedTerm,
    p: &EncodedTerm,
    o: &EncodedTerm,
    class_tree: &MultiTree,
    property_tree: &MultiTree,
) -> (row: (Vec<u8>, Vec<u8>))
    requires
        class_tree.wf(),
        property_tree.wf(),
    ensures
        row.0@ == term_bytes(*o) + term_bytes(*s) + term_bytes(*p),
        row.1@ == interval_annotation(*s, *p, *o, *class_tree, *property_tree),
{
    let mut key: Vec<u8> = Vec::with_capacity(3 * WRITTEN_TERM_MAX_SIZE);
    let value = encoded_interval_encoding(s, p, o, class_tree, property_tree);
    write_term(&mut key, o);
    write_term(&mut key, s);
    write_term(&mut key, p);
    proof {
        assert(key@ =~= term_bytes(*o) + term_bytes(*s) + term_bytes(*p));
    }
    (key, value)
}

/// The key of a triple in the order subject, predicate, object, with its interval
/// annotation behind the three terms.
pub fn encode_term_triple_oxiuse_key_spo(
    s: &EncodedTerm,
    p: &EncodedTerm,
    o: &EncodedTerm,
    class_tree: &MultiTree,
    property_tree: &MultiTree,
) -> (key: Vec<u8>)
    requires
        class_tree.wf(),
        property_tree.wf(),
    ensures
        key@ == term_bytes(*s) + term_bytes(*p) + term_bytes(*o) + interval_annotation(
            *s,
            *p,
            *o,
            *class_tree,
            *property_tree,
        ),
{
    let mut key: Vec<u8> = Vec::with_capacity(3 * WRITTEN_TERM_MAX_SIZE);
    let mut value = encoded_interval_encoding(s, p, o, class_tree, property_tree);
    write_term(&mut key, s);
    write_term(&mut key, p);
    write_term(&mut key, o);
    let ghost terms = key@;
    key.append(&mut value);
    proof {
        assert(terms =~= term_bytes(*s) + term_bytes(*p) + term_bytes(*o));
    }
    key
}

/// The key of a triple in the order predicate, object, subject, with its interval
/// annotation behind the three terms.
pub fn encode_term_triple_oxiuse_key_pos(
    s: &EncodedTerm,
    p: &EncodedTerm,
    o: &EncodedTerm,
    class_tree: &MultiTree,
    property_tree: &MultiTree,
) -> (key: Vec<u8>)
    requires
        class_tree.wf(),
        property_tree.wf(),
    ensures
        key@ == term_bytes(*p) + term_bytes(*o) + term_bytes(*s) + interval_annotation(
            *s,
            *p,
            *o,
            *class_tree,
            *property_tree,
        ),
{
    let mut key: Vec<u8> = Vec::with_capacity(3 * WRITTEN_TERM_MAX_SIZE);
    let mut value = encoded_interval_encoding(s, p, o, class_tree, property_tree);
    write_term(&mut key, p);
    write_term(&mut key, o);
    write_term(&mut key, s);
    let ghost terms = key@;
    key.append(&mut value);
    proof {
        assert(terms =~= term_bytes(*p) + term_bytes(*o) + term_bytes(*s));
    }
    key
}

/// The key of a triple in the order object, subject, predicate, with its interval
/// annotation behind the three terms.
pub fn encode_term_triple_oxiuse_key_osp(
    s: &EncodedTerm,
    p: &EncodedTerm,
    o: &EncodedTerm,
    class_tree: &MultiTree,
    property_tree: &MultiTree,
) -> (key: Vec<u8>)
    requires
        class_tree.wf(),
        property_tree.wf(),
    ensures
        key@ == term_bytes(*o) + term_bytes(*s) + term_bytes(*p) + interval_annotation(
            *s,
            *p,
            *o,
            *class_tree,
            *property_tree,
        ),
{
    let mut key: Vec<u8> = Vec::with_capacity(3 * WRITTEN_TERM_MAX_SIZE);
    let mut value = encoded_interval_encoding(s, p, o, class_tree, property_tree);
    write_term(&mut key, o);
    write_term(&mut key, s);
    write_term(&mut key, p);
    let ghost terms = key@;
    key.append(&mut value);
    proof {
        assert(terms =~= term_bytes(*o) + term_bytes(*s) + term_bytes(*p));
    }
    key
}

/// The key of a triple in the order subject, predicate, object, with its interval
/// annotation behind the three terms.
pub fn encode_term_triple_oxiuse_key(
    s: &EncodedTerm,
    p: &EncodedTerm,
    o: &EncodedTerm,
    class_tree: &MultiTree,
    property_tree: &MultiTree,
) -> (key: Vec<u8>)
    requires
        class_tree.wf(),
        property_tree.wf(),
    ensures
        key@ == term_bytes(*s) + term_bytes(*p) + term_bytes(*o) + interval_annotation(
            *s,
            *p,
            *o,
            *class_tree,
            *property_tree,
        ),
{
    let mut key: Vec<u8> = Vec::with_capacity(3 * WRITTEN_TERM_MAX_SIZE);
    let mut value = encoded_interval_encoding(s, p, o, class_tree, property_tree);
    write_term(&mut key, s);
    write_term(&mut key, p);
    write_term(&mut key, o);
    let ghost terms = key@;
    key.append(&mut value);
    proof {
        assert(terms =~= term_bytes(*s) + term_bytes(*p) + term_bytes(*o));
    }
    key
}

} // verus!
