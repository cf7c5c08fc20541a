use quadstore::interval_encoder::{
    encode_term_triple_oxiuse_key, encode_term_triple_oxiuse_key_osp,
    encode_term_triple_oxiuse_key_pos, encode_term_triple_oxiuse_key_spo,
    encode_term_triple_oxiuse_value_osp, encode_term_triple_oxiuse_value_pos,
    encode_term_triple_oxiuse_value_spo, encoded_interval_encoding,
};
use quadstore::binary_encoder::encode_term;
use quadstore::numeric_encoder::{EncodedTerm, StrHash};
use quadstore::taxonomy::{IntervalNode, MultiTree, TaxonomyError};
use quadstore::taxonomy_file::{construct_tree, parse_edge, parse_line, TaxonomyKind};
use quadstore::vocab::{
    LUBM_SUB_ORGANIZATION, OWL_CLASS, RDFS_DOMAIN, RDFS_RANGE, RDFS_SUB_CLASS_OF,
    RDFS_SUB_PROPERTY_OF, RDF_PROPERTY, RDF_TYPE,
};

fn node(iri: &str) -> EncodedTerm {
    EncodedTerm::NamedNode { iri_id: StrHash::new(iri) }
}

fn index(tree: &MultiTree, iri: &str) -> usize {
    tree.find(StrHash::new(iri)).unwrap()
}

fn labels(tree: &MultiTree, iri: &str) -> Vec<IntervalNode> {
    tree.get_node(index(tree, iri)).get_interval_nodes().clone()
}

fn label(start: u64, end: u64, layer: u16, parent: Option<usize>) -> IntervalNode {
    IntervalNode { start, end, layer, parent }
}

fn diamond() -> MultiTree {
    let mut tree = MultiTree::new(OWL_CLASS);
    tree.insert("a", "b");
    tree.insert("b", "c");
    tree.insert("a", "d");
    tree.encode().unwrap();
    tree
}

#[test]
fn a_new_parent_goes_under_the_root() {
    let mut tree = MultiTree::new(OWL_CLASS);
    assert_eq!(tree.len(), 1);
    tree.insert("a", "b");
    assert_eq!(tree.len(), 3);
    let b = index(&tree, "b");
    let a = index(&tree, "a");
    assert_eq!((b, a), (1, 2));
    assert_eq!(tree.get_node(0).get_children(), &vec![b]);
    assert_eq!(tree.get_node(b).get_children(), &vec![a]);
    assert_eq!(tree.get_node(a).get_data(), "a");
    assert_eq!(tree.get_node(a).get_hash(), StrHash::new("a"));
    assert!(tree.get_node_by_strhash(StrHash::new("zzz")).is_none());
}

#[test]
fn a_child_with_a_parent_leaves_the_root() {
    let mut tree = MultiTree::new(OWL_CLASS);
    tree.insert("a", "b");
    tree.insert("b", "c");
    let (b, c) = (index(&tree, "b"), index(&tree, "c"));
    assert_eq!(tree.get_node(0).get_children(), &vec![c]);
    assert_eq!(tree.get_node(c).get_children(), &vec![b]);
    tree.insert("b", OWL_CLASS);
    assert_eq!(tree.get_node(0).get_children(), &vec![c, b]);
    tree.insert("b", "c");
    tree.insert("b", "b");
    tree.insert(OWL_CLASS, "b");
    assert_eq!(tree.len(), 4);
    assert_eq!(tree.get_node(c).get_children(), &vec![b]);
    assert_eq!(tree.get_node(b).get_children().len(), 1);
}

#[test]
fn labels_count_entries_and_exits() {
    let tree = diamond();
    let (b, c, d) = (index(&tree, "b"), index(&tree, "c"), index(&tree, "d"));
    assert_eq!(labels(&tree, OWL_CLASS), vec![label(0, 11, 0, None)]);
    assert_eq!(labels(&tree, "c"), vec![label(1, 6, 1, Some(0))]);
    assert_eq!(labels(&tree, "b"), vec![label(2, 5, 2, Some(c))]);
    assert_eq!(labels(&tree, "d"), vec![label(7, 10, 1, Some(0))]);
    assert_eq!(labels(&tree, "a"), vec![label(3, 4, 3, Some(b)), label(8, 9, 2, Some(d))]);
    assert!(label(3, 4, 3, None).is_within(&label(1, 6, 1, None)));
    assert!(!label(3, 4, 3, None).is_within(&label(7, 10, 1, None)));
    assert_eq!(label(3, 4, 5, Some(2)).get_start(), 3);
    assert_eq!(label(3, 4, 5, Some(2)).get_end(), 4);
    assert_eq!(label(3, 4, 5, Some(2)).get_layer(), 5);
    assert_eq!(label(3, 4, 5, Some(2)).get_parent(), Some(2));
}

#[test]
fn containment_of_labels_is_descent() {
    let tree = diamond();
    let names = [OWL_CLASS, "a", "b", "c", "d"];
    let below = |x: &str, y: &str| -> bool {
        x == y
            || y == OWL_CLASS
            || matches!((x, y), ("a", "b") | ("a", "c") | ("a", "d") | ("b", "c"))
    };
    for x in names {
        for y in names {
            assert_eq!(
                tree.is_descendant(index(&tree, x), index(&tree, y)),
                below(x, y),
                "{} below {}",
                x,
                y
            );
        }
    }
}

#[test]
fn labelling_again_gives_the_same_labels() {
    let mut tree = diamond();
    let before = labels(&tree, "a");
    tree.encode().unwrap();
    assert_eq!(labels(&tree, "a"), before);
    tree.clear_labels();
    assert!(labels(&tree, "a").is_empty());
}

#[test]
fn a_circle_cannot_be_labelled() {
    let mut tree = MultiTree::new(OWL_CLASS);
    tree.insert("a", "b");
    tree.insert("b", "c");
    tree.insert("c", OWL_CLASS);
    tree.insert("c", "a");
    assert_eq!(tree.encode(), Err(TaxonomyError::Unrooted));
    assert!(labels(&tree, "a").is_empty());
    assert!(labels(&tree, OWL_CLASS).is_empty());
    let mut tree = MultiTree::new(OWL_CLASS);
    tree.insert("a", "b");
    tree.insert("c", "a");
    tree.insert("b", "c");
    tree.insert("b", OWL_CLASS);
    assert_eq!(tree.encode(), Err(TaxonomyError::TooDeep));
    assert!(labels(&tree, "b").is_empty());
    assert!(labels(&tree, OWL_CLASS).is_empty());
}

#[test]
fn lines_give_three_iris() {
    assert_eq!(
        parse_line(b"<http://a> <http://p> <http://b> ."),
        Some((b"http://a".to_vec(), b"http://p".to_vec(), b"http://b".to_vec()))
    );
    assert_eq!(
        parse_line(b"<a> <p> <b>"),
        Some((b"a".to_vec(), b"p".to_vec(), b"b".to_vec()))
    );
    assert_eq!(parse_line(b"<> <> <>"), Some((vec![], vec![], vec![])));
    assert_eq!(parse_line(b""), None);
    assert_eq!(parse_line(b"<a> <p>"), None);
    assert_eq!(parse_line(b"<a>  <p> <b> ."), None);
    assert_eq!(parse_line(b"<a> <p> \"b\" ."), None);
    assert_eq!(parse_line(b"a <p> <b> ."), None);
    assert_eq!(parse_line(b"< <p> <b> ."), None);
}

#[test]
fn only_three_predicates_make_edges() {
    let line = |p: &str| format!("<http://a> <{}> <http://b> .", p);
    let edge = |kind| Some((kind, "http://a".to_string(), "http://b".to_string()));
    assert_eq!(parse_edge(line(RDFS_SUB_CLASS_OF).as_bytes()), edge(TaxonomyKind::Class));
    assert_eq!(parse_edge(line(LUBM_SUB_ORGANIZATION).as_bytes()), edge(TaxonomyKind::Class));
    assert_eq!(parse_edge(line(RDFS_SUB_PROPERTY_OF).as_bytes()), edge(TaxonomyKind::Property));
    assert_eq!(parse_edge(line(RDF_TYPE).as_bytes()), None);
    assert_eq!(parse_edge(line(RDFS_DOMAIN).as_bytes()), None);
    let mut bad = b"<\xff> <".to_vec();
    bad.extend_from_slice(RDFS_SUB_CLASS_OF.as_bytes());
    bad.extend_from_slice(b"> <b> .");
    assert_eq!(parse_edge(&bad), None);
}

fn taxonomy_lines() -> Vec<String> {
    vec![
        format!("<a> <{}> <b> .", RDFS_SUB_CLASS_OF),
        "not a triple".to_string(),
        format!("<b> <{}> <c> .", RDFS_SUB_CLASS_OF),
        format!("<x> <{}> <y> .", RDF_TYPE),
        format!("<p> <{}> <q> .", RDFS_SUB_PROPERTY_OF),
        format!("<a> <{}> <d> .", LUBM_SUB_ORGANIZATION),
    ]
}

#[test]
fn a_file_makes_two_labelled_taxonomies() {
    let (classes, properties) = construct_tree(&taxonomy_lines()).unwrap();
    assert_eq!(classes.len(), 5);
    assert_eq!(classes.get_node(0).get_data(), OWL_CLASS);
    assert_eq!(labels(&classes, "a"), labels(&diamond(), "a"));
    assert_eq!(properties.len(), 3);
    assert_eq!(properties.get_node(0).get_data(), RDF_PROPERTY);
    let q = index(&properties, "q");
    assert_eq!(labels(&properties, "p"), vec![label(2, 3, 2, Some(q))]);
    assert!(properties.find(StrHash::new("a")).is_none());
    let circle = vec![
        format!("<a> <{}> <b> .", RDFS_SUB_CLASS_OF),
        format!("<b> <{}> <a> .", RDFS_SUB_CLASS_OF),
        format!("<b> <{}> <{}> .", RDFS_SUB_CLASS_OF, OWL_CLASS),
    ];
    assert_eq!(construct_tree(&circle), Err(TaxonomyError::TooDeep));
    let apart = vec![
        format!("<a> <{}> <b> .", RDFS_SUB_CLASS_OF),
        format!("<b> <{}> <a> .", RDFS_SUB_CLASS_OF),
    ];
    assert_eq!(construct_tree(&apart), Err(TaxonomyError::Unrooted));
    let apart = vec![
        format!("<p> <{}> <q> .", RDFS_SUB_PROPERTY_OF),
        format!("<q> <{}> <p> .", RDFS_SUB_PROPERTY_OF),
        format!("<a> <{}> <b> .", RDFS_SUB_CLASS_OF),
    ];
    assert_eq!(construct_tree(&apart), Err(TaxonomyError::Unrooted));
}

fn span(start: u64, end: u64) -> Vec<u8> {
    [start.to_be_bytes(), end.to_be_bytes()].concat()
}

fn full(start: u64, end: u64, layer: u16) -> Vec<u8> {
    [span(start, end), layer.to_be_bytes().to_vec()].concat()
}

#[test]
fn a_sub_class_triple_carries_the_labels_of_both_ends() {
    let (classes, properties) = construct_tree(&taxonomy_lines()).unwrap();
    let sub_class_of = node(RDFS_SUB_CLASS_OF);
    assert_eq!(
        encoded_interval_encoding(&node("a"), &sub_class_of, &node("b"), &classes, &properties),
        [vec![50], span(3, 4), full(2, 5, 2)].concat()
    );
    assert_eq!(
        encoded_interval_encoding(&node("a"), &sub_class_of, &node("d"), &classes, &properties),
        [vec![50], span(8, 9), full(7, 10, 1)].concat()
    );
    assert_eq!(
        encoded_interval_encoding(&node("a"), &sub_class_of, &node("c"), &classes, &properties),
        [vec![50], full(1, 6, 1)].concat()
    );
    assert_eq!(
        encoded_interval_encoding(
            &node("a"),
            &node(LUBM_SUB_ORGANIZATION),
            &node("b"),
            &classes,
            &properties
        ),
        [vec![50], span(3, 4), full(2, 5, 2)].concat()
    );
    assert_eq!(
        encoded_interval_encoding(
            &node("p"),
            &node(RDFS_SUB_PROPERTY_OF),
            &node("q"),
            &classes,
            &properties
        ),
        [vec![51], span(2, 3), full(1, 4, 1)].concat()
    );
}

#[test]
fn a_type_triple_carries_all_labels_of_the_class() {
    let (classes, properties) = construct_tree(&taxonomy_lines()).unwrap();
    for p in [RDF_TYPE, RDFS_DOMAIN, RDFS_RANGE] {
        assert_eq!(
            encoded_interval_encoding(&node("x"), &node(p), &node("a"), &classes, &properties),
            [vec![50, 2], full(3, 4, 3), full(8, 9, 2)].concat()
        );
    }
    assert_eq!(
        encoded_interval_encoding(&node("x"), &node(RDF_TYPE), &node("c"), &classes, &properties),
        [vec![50, 1], full(1, 6, 1)].concat()
    );
}

#[test]
fn other_triples_carry_nothing() {
    let (classes, properties) = construct_tree(&taxonomy_lines()).unwrap();
    let sub_class_of = node(RDFS_SUB_CLASS_OF);
    let nothing: Vec<u8> = Vec::new();
    let cases = [
        (node("a"), node("http://other"), node("b")),
        (node("a"), EncodedTerm::BooleanLiteral(true), node("b")),
        (node("unknown"), sub_class_of.clone(), node("b")),
        (node("a"), sub_class_of.clone(), node("unknown")),
        (EncodedTerm::BooleanLiteral(true), sub_class_of.clone(), node("b")),
        (node("a"), sub_class_of.clone(), EncodedTerm::IntegerLiteral(1)),
        (node("a"), node(RDFS_SUB_PROPERTY_OF), node("b")),
        (node("x"), node(RDF_TYPE), node("unknown")),
        (node("x"), node(RDF_TYPE), EncodedTerm::NumericalBlankNode { id: 1 }),
    ];
    for (s, p, o) in cases {
        assert_eq!(encoded_interval_encoding(&s, &p, &o, &classes, &properties), nothing);
    }
}

#[test]
fn the_annotation_is_the_value_or_follows_the_key() {
    let (classes, properties) = construct_tree(&taxonomy_lines()).unwrap();
    let (s, p, o) = (node("a"), node(RDFS_SUB_CLASS_OF), node("b"));
    let note = encoded_interval_encoding(&s, &p, &o, &classes, &properties);
    let (bs, bp, bo) = (encode_term(&s), encode_term(&p), encode_term(&o));
    let spo = [bs.clone(), bp.clone(), bo.clone()].concat();
    let pos = [bp.clone(), bo.clone(), bs.clone()].concat();
    let osp = [bo, bs, bp].concat();
    assert_eq!(
        encode_term_triple_oxiuse_value_spo(&s, &p, &o, &classes, &properties),
        (spo.clone(), note.clone())
    );
    assert_eq!(
        encode_term_triple_oxiuse_value_pos(&s, &p, &o, &classes, &properties),
        (pos.clone(), note.clone())
    );
    assert_eq!(
        encode_term_triple_oxiuse_value_osp(&s, &p, &o, &classes, &properties),
        (osp.clone(), note.clone())
    );
    assert_eq!(
        encode_term_triple_oxiuse_key_spo(&s, &p, &o, &classes, &properties),
        [spo.clone(), note.clone()].concat()
    );
    assert_eq!(
        encode_term_triple_oxiuse_key(&s, &p, &o, &classes, &properties),
        [spo, note.clone()].concat()
    );
    assert_eq!(
        encode_term_triple_oxiuse_key_pos(&s, &p, &o, &classes, &properties),
        [pos, note.clone()].concat()
    );
    assert_eq!(
        encode_term_triple_oxiuse_key_osp(&s, &p, &o, &classes, &properties),
        [osp, note].concat()
    );
}

#[test]
fn one_byte_counts_at_most_255_labels() {
    let mut classes = MultiTree::new(OWL_CLASS);
    for i in 0..300 {
        classes.insert("c", &format!("parent{}", i));
    }
    classes.encode().unwrap();
    let properties = MultiTree::new(RDF_PROPERTY);
    let all = labels(&classes, "c");
    assert_eq!(all.len(), 300);
    let note = encoded_interval_encoding(&node("x"), &node(RDF_TYPE), &node("c"), &classes, &properties);
    assert_eq!(note.len(), 2 + 255 * 18);
    assert_eq!(note[0], 50);
    assert_eq!(note[1], 255);
    assert_eq!(note[2..20], full(all[0].start, all[0].end, all[0].layer)[..]);
    let last = &all[254];
    assert_eq!(note[note.len() - 18..], full(last.start, last.end, last.layer)[..]);

    let mut classes = MultiTree::new(OWL_CLASS);
    for i in 0..255 {
        classes.insert("c", &format!("parent{}", i));
    }
    classes.encode().unwrap();
    let note = encoded_interval_encoding(&node("x"), &node(RDF_TYPE), &node("c"), &classes, &properties);
    assert_eq!(note.len(), 2 + 255 * 18);
    assert_eq!(note[1], 255);
}

#[test]
fn containment_is_what_the_file_says() {
    let edges = [("a", "b"), ("b", "c"), ("a", "d"), ("e", "d"), ("f", "a"), ("g", "f"), ("g", "e")];
    let lines: Vec<String> = edges
        .iter()
        .map(|(child, parent)| format!("<{}> <{}> <{}> .", child, RDFS_SUB_CLASS_OF, parent))
        .collect();
    let (classes, properties) = construct_tree(&lines).unwrap();
    assert_eq!(properties.len(), 1);
    let names = ["a", "b", "c", "d", "e", "f", "g"];
    fn below(edges: &[(&str, &str)], x: &str, y: &str) -> bool {
        x == y || edges.iter().any(|(child, parent)| *child == x && below(edges, parent, y))
    }
    for x in names {
        assert!(classes.is_descendant(index(&classes, x), 0));
        assert!(!labels(&classes, x).is_empty());
        for y in names {
            assert_eq!(
                classes.is_descendant(index(&classes, x), index(&classes, y)),
                below(&edges, x, y),
                "{} below {}",
                x,
                y
            );
        }
    }
}

fn chain(length: usize) -> MultiTree {
    let mut tree = MultiTree::new(OWL_CLASS);
    tree.insert("n0", OWL_CLASS);
    for i in 1..length {
        tree.insert(&format!("n{}", i), &format!("n{}", i - 1));
    }
    tree
}

#[test]
fn labelling_goes_down_a_long_chain() {
    let mut tree = chain(5000);
    assert_eq!(tree.len(), 5001);
    assert_eq!(tree.encode(), Ok(()));
    let deepest = labels(&tree, "n4999");
    assert_eq!(deepest, vec![label(5000, 5001, 5000, Some(index(&tree, "n4998")))]);
    assert_eq!(labels(&tree, OWL_CLASS), vec![label(0, 10001, 0, None)]);
    assert!(tree.is_descendant(index(&tree, "n4999"), index(&tree, "n0")));
    assert!(!tree.is_descendant(index(&tree, "n0"), index(&tree, "n4999")));
}

#[test]
fn a_circle_below_the_root_is_too_deep() {
    let mut tree = chain(3);
    tree.insert("n0", "n2");
    tree.insert("n0", OWL_CLASS);
    assert_eq!(tree.encode(), Err(TaxonomyError::TooDeep));
    assert!(labels(&tree, "n0").is_empty());
    assert!(labels(&tree, OWL_CLASS).is_empty());
}

#[test]
fn labelling_goes_65535_layers_down() {
    let mut tree = chain(65535);
    assert_eq!(tree.encode(), Ok(()));
    let deepest = labels(&tree, "n65534");
    assert_eq!(deepest.len(), 1);
    assert_eq!(deepest[0].layer, 65535);
    tree.insert("one more", "n65534");
    assert_eq!(tree.encode(), Err(TaxonomyError::TooDeep));
    assert!(labels(&tree, "n65534").is_empty());
}
