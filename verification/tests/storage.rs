use quadstore::backend::{column_family_at, ColumnFamily, Db};
use quadstore::binary_encoder::{encode_term, QuadEncoding};
use quadstore::error::{CorruptionError, StorageError};
use quadstore::model::{BlankNode, GraphName, Literal, NamedNode, NamedOrBlankNode, Quad, Term};
use quadstore::numeric_encoder::{EncodedQuad, EncodedTerm, StrHash, Timestamp};
use quadstore::small_string::SmallString;
use quadstore::storage::{ChainedDecodingQuadIterator, Storage, StorageReader};

fn named(iri: &str) -> Term {
    Term::NamedNode(NamedNode::new_unchecked(iri))
}

fn graph(iri: &str) -> GraphName {
    GraphName::NamedNode(NamedNode::new_unchecked(iri))
}

fn quad(s: &str, p: &str, o: &str, g: GraphName) -> Quad {
    Quad::new(named(s), named(p), named(o), g)
}

fn triple() -> Quad {
    quad("http://a/s", "http://a/p", "http://a/o", GraphName::DefaultGraph)
}

fn collect(mut it: ChainedDecodingQuadIterator) -> Vec<EncodedQuad> {
    let mut quads = Vec::new();
    while let Some(item) = it.next() {
        quads.push(item.unwrap());
    }
    quads
}

fn graphs(reader: &StorageReader) -> Vec<EncodedTerm> {
    let mut it = reader.named_graphs();
    let mut names = Vec::new();
    while let Some(item) = it.next() {
        names.push(item.unwrap());
    }
    names
}

fn rows(storage: &Storage, cf: ColumnFamily) -> usize {
    storage.backup().len(cf)
}

fn store_with(quads: &[Quad]) -> Storage {
    let mut storage = Storage::new().unwrap();
    let mut writer = storage.transaction();
    for q in quads {
        writer.insert(q).unwrap();
    }
    storage.commit(writer);
    storage
}

#[test]
fn a_new_store_holds_its_version() {
    let storage = Storage::new().unwrap();
    let db = storage.backup();
    assert_eq!(
        db.get(ColumnFamily::Default, b"oxversion"),
        Some(&vec![0u8, 0, 0, 0, 0, 0, 0, 1])
    );
    assert_eq!(db.len(ColumnFamily::Default), 1);
    let reader = storage.snapshot();
    assert!(reader.is_empty().unwrap());
    assert_eq!(reader.len().unwrap(), 0);
    assert_eq!(reader.validate(), Ok(()));
}

#[test]
fn a_triple_is_found_by_its_subject() {
    let storage = store_with(&[triple()]);
    let expected = EncodedQuad::from_quad(&triple());
    let reader = storage.snapshot();
    let found = collect(reader.quads_for_pattern(Some(&expected.subject), None, None, None));
    assert_eq!(found, vec![expected.clone()]);
    assert!(reader.contains(&expected).unwrap());
    assert_eq!(reader.len().unwrap(), 1);
    assert!(!reader.is_empty().unwrap());
    let other = EncodedTerm::NamedNode { iri_id: StrHash::new("http://a/other") };
    assert!(collect(reader.quads_for_pattern(Some(&other), None, None, None)).is_empty());
}

#[test]
fn inserting_twice_changes_nothing() {
    let mut storage = Storage::new().unwrap();
    let mut writer = storage.transaction();
    assert_eq!(writer.insert(&triple()), Ok(true));
    storage.commit(writer);
    let counts: Vec<usize> = [ColumnFamily::Dspo, ColumnFamily::Dpos, ColumnFamily::Dosp, ColumnFamily::Id2Str]
        .iter()
        .map(|cf| rows(&storage, *cf))
        .collect();
    assert_eq!(counts, vec![1, 1, 1, 3]);
    let before = storage.backup();
    let mut writer = storage.transaction();
    assert_eq!(writer.insert(&triple()), Ok(false));
    storage.commit(writer);
    assert_eq!(storage.backup(), before);
}

#[test]
fn a_named_graph_outlives_its_quads() {
    let g = graph("http://g");
    let q = quad("http://a/s", "http://a/p", "http://a/o", g.clone());
    let mut storage = store_with(&[q.clone()]);
    let name = EncodedTerm::from_graph_name(&g);
    assert_eq!(graphs(&storage.snapshot()), vec![name.clone()]);
    assert!(storage.snapshot().contains_named_graph(&name).unwrap());
    for cf in [
        ColumnFamily::Spog,
        ColumnFamily::Posg,
        ColumnFamily::Ospg,
        ColumnFamily::Gspo,
        ColumnFamily::Gpos,
        ColumnFamily::Gosp,
    ] {
        assert_eq!(rows(&storage, cf), 1);
    }
    assert_eq!(rows(&storage, ColumnFamily::Dspo), 0);
    assert_eq!(rows(&storage, ColumnFamily::Id2Str), 4);

    let mut writer = storage.transaction();
    assert_eq!(writer.remove(&q), Ok(true));
    assert_eq!(writer.remove(&q), Ok(false));
    storage.commit(writer);
    for cf in [
        ColumnFamily::Spog,
        ColumnFamily::Posg,
        ColumnFamily::Ospg,
        ColumnFamily::Gspo,
        ColumnFamily::Gpos,
        ColumnFamily::Gosp,
    ] {
        assert_eq!(rows(&storage, cf), 0);
    }
    assert_eq!(graphs(&storage.snapshot()), vec![name.clone()]);
    assert_eq!(rows(&storage, ColumnFamily::Id2Str), 4);

    let mut writer = storage.transaction();
    let node = NamedOrBlankNode::NamedNode(NamedNode::new_unchecked("http://g"));
    assert_eq!(writer.remove_named_graph(&node), Ok(true));
    assert_eq!(writer.remove_named_graph(&node), Ok(false));
    storage.commit(writer);
    assert!(graphs(&storage.snapshot()).is_empty());
    assert_eq!(rows(&storage, ColumnFamily::Id2Str), 4);
    assert_eq!(storage.snapshot().validate(), Ok(()));
}

#[test]
fn a_tampered_index_is_found_out() {
    let storage = store_with(&[triple()]);
    let encoded = EncodedQuad::from_quad(&triple());
    let key = StorageReader::key_of(QuadEncoding::Dpos, &encoded);
    let mut db = storage.backup();
    db.remove(ColumnFamily::Dpos, &key);
    let tampered = Storage::open(db).unwrap();
    assert_eq!(
        tampered.snapshot().validate(),
        Err(StorageError::Corruption(CorruptionError::MissingFromIndex {
            index: ColumnFamily::Dpos,
            key,
        }))
    );
}

#[test]
fn validation_names_what_is_wrong() {
    let storage = store_with(&[triple()]);
    let encoded = EncodedQuad::from_quad(&triple());

    let mut db = storage.backup();
    let lacking = StorageReader::key_of(QuadEncoding::Dosp, &encoded);
    db.remove(ColumnFamily::Dosp, &lacking);
    db.insert_empty(ColumnFamily::Gspo, b"\x01");
    assert_eq!(
        Storage::open(db).unwrap().snapshot().validate(),
        Err(StorageError::Corruption(CorruptionError::MissingFromIndex {
            index: ColumnFamily::Dosp,
            key: lacking,
        }))
    );

    let mut db = storage.backup();
    db.insert_empty(ColumnFamily::Dpos, b"\x01");
    assert_eq!(
        Storage::open(db).unwrap().snapshot().validate(),
        Err(StorageError::Corruption(CorruptionError::TripleCountMismatch))
    );

    let mut db = storage.backup();
    db.insert_empty(ColumnFamily::Gspo, b"\x01");
    assert_eq!(
        Storage::open(db).unwrap().snapshot().validate(),
        Err(StorageError::Corruption(CorruptionError::QuadCountMismatch))
    );

    let mut db = storage.backup();
    let key = StorageReader::key_of(QuadEncoding::Dspo, &encoded);
    let mut long_key = key.clone();
    db.remove(ColumnFamily::Dspo, &key);
    long_key.push(7);
    db.insert_empty(ColumnFamily::Dspo, &long_key);
    assert_eq!(
        Storage::open(db).unwrap().snapshot().validate(),
        Err(StorageError::Corruption(CorruptionError::MissingFromIndex {
            index: ColumnFamily::Dspo,
            key,
        }))
    );

    let mut db = storage.backup();
    for encoding in [QuadEncoding::Dspo, QuadEncoding::Dpos, QuadEncoding::Dosp] {
        let mut longer = StorageReader::key_of(encoding, &encoded);
        longer.push(7);
        db.insert_empty(encoding.family(), &longer);
    }
    assert!(db.contains_key(ColumnFamily::Dspo, &long_key));
    assert_eq!(db.len(ColumnFamily::Dspo), 2);
    assert_eq!(Storage::open(db).unwrap().snapshot().validate(), Ok(()));

    let mut db = storage.backup();
    for cf in [ColumnFamily::Dspo, ColumnFamily::Dpos, ColumnFamily::Dosp] {
        db.insert_empty(cf, b"\x1c");
    }
    db.insert_empty(ColumnFamily::Dspo, b"\xee");
    db.insert_empty(ColumnFamily::Dpos, b"\xee");
    db.insert_empty(ColumnFamily::Dosp, b"\x01");
    db.remove(ColumnFamily::Id2Str, &StrHash::new("http://a/p").hash.to_be_bytes());
    assert_eq!(
        Storage::open(db).unwrap().snapshot().validate(),
        Err(StorageError::Corruption(CorruptionError::UnexpectedEnd))
    );

    let mut db = storage.backup();
    db.remove(ColumnFamily::Id2Str, &StrHash::new("http://a/p").hash.to_be_bytes());
    assert_eq!(
        Storage::open(db).unwrap().snapshot().validate(),
        Err(StorageError::Corruption(CorruptionError::MissingString))
    );

    let mut db = storage.backup();
    db.insert(ColumnFamily::Id2Str, &StrHash::new("http://a/p").hash.to_be_bytes(), &[0xff]);
    assert_eq!(
        Storage::open(db).unwrap().snapshot().validate(),
        Err(StorageError::Corruption(CorruptionError::BadString))
    );

    let named_quad = quad("http://a/s", "http://a/p", "http://a/o", graph("http://g"));
    let storage = store_with(&[named_quad.clone()]);
    let name = encode_term(&EncodedTerm::from_graph_name(&graph("http://g")));
    let mut db = storage.backup();
    db.remove(ColumnFamily::Graphs, &name);
    assert_eq!(
        Storage::open(db).unwrap().snapshot().validate(),
        Err(StorageError::Corruption(CorruptionError::MissingGraphName { key: name }))
    );
    assert_eq!(CorruptionError::TripleCountMismatch.message(), "not the same number of triples in dspo, dpos and dosp");
}

#[test]
fn strings_are_kept_and_found() {
    let long = "a literal that is much longer than fifteen bytes";
    let q = Quad::new(
        Term::BlankNode(BlankNode::new_unchecked("b")),
        named("http://a/p"),
        Term::Literal(Literal::new_simple_literal(long)),
        GraphName::DefaultGraph,
    );
    let mut storage = store_with(&[q.clone()]);
    let reader = storage.snapshot();
    assert_eq!(reader.get_str(&StrHash::new(long)), Ok(Some(long.to_string())));
    assert_eq!(reader.get_str(&StrHash::new("http://a/p")), Ok(Some("http://a/p".to_string())));
    assert_eq!(reader.get_str(&StrHash::new("b")), Ok(None));
    assert_eq!(reader.contains_str(&StrHash::new(long)), Ok(true));
    assert_eq!(reader.contains_str(&StrHash::new("b")), Ok(false));
    assert_eq!(reader.decode_quad(&EncodedQuad::from_quad(&q)), Ok(q.clone()));

    let mut writer = storage.transaction();
    writer.remove(&q).unwrap();
    storage.commit(writer);
    let reader = storage.snapshot();
    assert!(reader.is_empty().unwrap());
    assert_eq!(reader.get_str(&StrHash::new(long)), Ok(Some(long.to_string())));
    assert_eq!(rows(&storage, ColumnFamily::Id2Str), 2);
}

#[test]
fn a_dropped_writer_changes_nothing() {
    let storage = store_with(&[triple()]);
    let before = storage.backup();
    let mut writer = storage.transaction();
    writer.insert(&quad("http://b/s", "http://b/p", "http://b/o", graph("http://g"))).unwrap();
    assert_eq!(writer.reader().len().unwrap(), 2);
    drop(writer);
    assert_eq!(storage.backup(), before);
    assert_eq!(storage.snapshot().len().unwrap(), 1);
}

fn sample_store() -> (Storage, Vec<Quad>) {
    let quads = vec![
        quad("http://s1", "http://pa", "http://o1", GraphName::DefaultGraph),
        quad("http://s1", "http://pb", "http://o2", GraphName::DefaultGraph),
        quad("http://s2", "http://pa", "http://o1", GraphName::DefaultGraph),
        quad("http://s1", "http://pa", "http://o1", graph("http://g1")),
        quad("http://s1", "http://pa", "http://o2", graph("http://g1")),
        quad("http://s2", "http://pb", "http://o1", graph("http://g2")),
        quad("http://s1", "http://pa", "http://o1", graph("http://g2")),
    ];
    (store_with(&quads), quads)
}

fn same_quads(mut found: Vec<EncodedQuad>, expected: Vec<EncodedQuad>) {
    assert_eq!(found.len(), expected.len());
    for q in expected {
        let at = found.iter().position(|f| *f == q).expect("a quad is missing");
        found.remove(at);
    }
    assert!(found.is_empty());
}

#[test]
fn every_pattern_gives_the_quads_that_match() {
    let (storage, quads) = sample_store();
    let reader = storage.snapshot();
    let encoded: Vec<EncodedQuad> = quads.iter().map(EncodedQuad::from_quad).collect();
    let s1 = EncodedTerm::NamedNode { iri_id: StrHash::new("http://s1") };
    let pa = EncodedTerm::NamedNode { iri_id: StrHash::new("http://pa") };
    let o1 = EncodedTerm::NamedNode { iri_id: StrHash::new("http://o1") };
    let g1 = EncodedTerm::NamedNode { iri_id: StrHash::new("http://g1") };
    let default = EncodedTerm::DefaultGraph;
    for s in [None, Some(&s1)] {
        for p in [None, Some(&pa)] {
            for o in [None, Some(&o1)] {
                for g in [None, Some(&g1), Some(&default)] {
                    let expected: Vec<EncodedQuad> = encoded
                        .iter()
                        .filter(|q| {
                            s.map_or(true, |t| *t == q.subject)
                                && p.map_or(true, |t| *t == q.predicate)
                                && o.map_or(true, |t| *t == q.object)
                                && g.map_or(true, |t| *t == q.graph_name)
                        })
                        .cloned()
                        .collect();
                    same_quads(collect(reader.quads_for_pattern(s, p, o, g)), expected);
                }
            }
        }
    }
    same_quads(collect(reader.quads()), encoded);
}

#[test]
fn scans_come_in_the_order_of_the_keys() {
    let (storage, _) = sample_store();
    let reader = storage.snapshot();
    let found = collect(reader.quads());
    let default_graph: Vec<bool> = found.iter().map(|q| q.graph_name.is_default_graph()).collect();
    assert_eq!(default_graph, vec![true, true, true, false, false, false, false]);
    let keys: Vec<Vec<u8>> = found[..3]
        .iter()
        .map(|q| StorageReader::key_of(QuadEncoding::Dspo, q))
        .collect();
    let mut sorted = keys.clone();
    sorted.sort();
    assert_eq!(keys, sorted);
}

#[test]
fn clearing_a_graph_leaves_the_others() {
    let (mut storage, quads) = sample_store();
    let mut writer = storage.transaction();
    writer.clear_graph(&graph("http://g1")).unwrap();
    storage.commit(writer);
    let reader = storage.snapshot();
    let left: Vec<EncodedQuad> = quads
        .iter()
        .filter(|q| q.graph_name != graph("http://g1"))
        .map(EncodedQuad::from_quad)
        .collect();
    same_quads(collect(reader.quads()), left);
    assert_eq!(graphs(&reader).len(), 2);
    assert_eq!(reader.validate(), Ok(()));

    let mut writer = storage.transaction();
    writer.clear_graph(&GraphName::DefaultGraph).unwrap();
    writer.clear_graph(&graph("http://unknown")).unwrap();
    storage.commit(writer);
    let reader = storage.snapshot();
    assert_eq!(reader.len().unwrap(), 2);
    assert_eq!(rows(&storage, ColumnFamily::Dpos), 0);
    assert_eq!(reader.validate(), Ok(()));
}

#[test]
fn clearing_all_named_graphs_keeps_their_names() {
    let (mut storage, _) = sample_store();
    let mut writer = storage.transaction();
    writer.clear_all_named_graphs().unwrap();
    storage.commit(writer);
    let reader = storage.snapshot();
    assert_eq!(reader.len().unwrap(), 3);
    assert_eq!(rows(&storage, ColumnFamily::Posg), 0);
    assert_eq!(graphs(&reader).len(), 2);
    assert_eq!(reader.validate(), Ok(()));

    let mut writer = storage.transaction();
    writer.clear_all_graphs().unwrap();
    storage.commit(writer);
    assert!(storage.snapshot().is_empty().unwrap());
    assert_eq!(graphs(&storage.snapshot()).len(), 2);
    assert_eq!(rows(&storage, ColumnFamily::Dosp), 0);
}

#[test]
fn removing_all_named_graphs_removes_their_names() {
    let (mut storage, _) = sample_store();
    let strings = rows(&storage, ColumnFamily::Id2Str);
    let mut writer = storage.transaction();
    writer.remove_all_named_graphs().unwrap();
    storage.commit(writer);
    let reader = storage.snapshot();
    assert_eq!(reader.len().unwrap(), 3);
    assert!(graphs(&reader).is_empty());
    assert_eq!(rows(&storage, ColumnFamily::Gosp), 0);
    assert_eq!(reader.validate(), Ok(()));

    let mut writer = storage.transaction();
    writer.clear().unwrap();
    storage.commit(writer);
    assert!(storage.snapshot().is_empty().unwrap());
    assert_eq!(rows(&storage, ColumnFamily::Id2Str), strings);
    assert_eq!(rows(&storage, ColumnFamily::Default), 1);
}

#[test]
fn a_graph_can_be_named_before_it_has_quads() {
    let mut storage = Storage::new().unwrap();
    let node = NamedOrBlankNode::BlankNode(BlankNode::new_unchecked(
        "a blank node with a long name",
    ));
    let mut writer = storage.transaction();
    assert_eq!(writer.insert_named_graph(&node), Ok(true));
    assert_eq!(writer.insert_named_graph(&node), Ok(false));
    storage.commit(writer);
    let reader = storage.snapshot();
    assert_eq!(graphs(&reader).len(), 1);
    assert_eq!(reader.len().unwrap(), 0);
    assert_eq!(
        reader.get_str(&StrHash::new("a blank node with a long name")),
        Ok(Some("a blank node with a long name".to_string()))
    );
    assert_eq!(reader.validate(), Ok(()));
}

#[test]
fn a_store_of_version_zero_gets_its_graphs() {
    let q = quad("http://a/s", "http://a/p", "http://a/o", graph("http://g"));
    let storage = store_with(&[q]);
    let name = encode_term(&EncodedTerm::from_graph_name(&graph("http://g")));
    let mut db = storage.backup();
    db.remove(ColumnFamily::Graphs, &name);
    db.insert(ColumnFamily::Default, b"oxversion", &0u64.to_be_bytes());
    let migrated = Storage::open(db).unwrap();
    let db = migrated.backup();
    assert!(db.contains_key(ColumnFamily::Graphs, &name));
    assert_eq!(db.get(ColumnFamily::Default, b"oxversion"), Some(&1u64.to_be_bytes().to_vec()));
    assert_eq!(migrated.snapshot().validate(), Ok(()));
}

#[test]
fn a_store_of_a_later_version_is_refused() {
    let mut db = Storage::new().unwrap().backup();
    db.insert(ColumnFamily::Default, b"oxversion", &2u64.to_be_bytes());
    assert_eq!(
        Storage::open(db),
        Err(StorageError::Corruption(CorruptionError::TooRecentVersion(2)))
    );
    let mut db = Storage::new().unwrap().backup();
    db.insert(ColumnFamily::Default, b"oxversion", &[1]);
    assert_eq!(
        Storage::open(db),
        Err(StorageError::Corruption(CorruptionError::BadVersionRecord))
    );
    let db = Db::new(Storage::initial_column_families());
    let opened = Storage::open(db).unwrap();
    assert_eq!(opened.backup(), Storage::new().unwrap().backup());
}

#[test]
fn column_families_have_their_prefix_hints() {
    let definitions = Storage::initial_column_families();
    assert_eq!(definitions.len(), 11);
    for d in &definitions {
        let loose = matches!(
            d.family,
            ColumnFamily::Id2Str | ColumnFamily::Ospg | ColumnFamily::Dosp
        );
        assert_eq!(d.min_prefix_size, if loose { 0 } else { 17 });
        assert_eq!(d.use_iter, d.family != ColumnFamily::Id2Str);
        assert_eq!(d.unordered_writes, d.family == ColumnFamily::Id2Str);
    }
    assert_eq!(ColumnFamily::Gspo.name(), "gspo");
    assert_eq!(ColumnFamily::Default.name(), "default");
    assert!(Storage::new().unwrap().flush().is_ok());
    assert!(Storage::new().unwrap().compact().is_ok());
}

#[test]
fn an_undecodable_row_stops_a_scan() {
    let storage = store_with(&[triple()]);
    let mut db = storage.backup();
    db.insert_empty(ColumnFamily::Dspo, &[0]);
    let reader = Storage::open(db).unwrap().snapshot();
    let mut it = reader.quads();
    assert_eq!(it.next(), Some(Err(StorageError::Corruption(CorruptionError::InvalidTypeId))));
    assert_eq!(it.next(), Some(Err(StorageError::Corruption(CorruptionError::InvalidTypeId))));
}

#[test]
fn terms_without_their_texts_do_not_decode() {
    let long = "a blank node with a long name";
    let q = Quad::new(
        Term::BlankNode(BlankNode::new_unchecked(long)),
        named("http://a/p"),
        Term::Literal(Literal::new_language_tagged_literal_unchecked("chat", "fr")),
        graph("http://g"),
    );
    let storage = store_with(&[q.clone()]);
    let encoded = EncodedQuad::from_quad(&q);
    assert_eq!(storage.snapshot().decode_quad(&encoded), Ok(q.clone()));
    assert_eq!(storage.snapshot().check_quad(&encoded), Ok(()));
    assert_eq!(
        storage.snapshot().decode_graph_name(&encoded.graph_name),
        Ok(graph("http://g"))
    );
    assert_eq!(
        storage.snapshot().decode_graph_name(&EncodedTerm::DefaultGraph),
        Ok(GraphName::DefaultGraph)
    );
    assert!(storage.snapshot().decode_graph_name(&encoded.object).is_err());
    assert!(storage.snapshot().decode_term(&EncodedTerm::DefaultGraph).is_err());

    let key = StrHash::new(long).hash.to_be_bytes();
    let mut db = storage.backup();
    db.remove(ColumnFamily::Id2Str, &key);
    let reader = Storage::open(db).unwrap().snapshot();
    assert_eq!(
        reader.decode_term(&encoded.subject),
        Err(StorageError::Corruption(CorruptionError::MissingString))
    );
    assert_eq!(reader.decode_term(&encoded.object), Ok(q.object.clone()));

    let mut db = storage.backup();
    db.insert(ColumnFamily::Id2Str, &key, b"another text that is long enough");
    let reader = Storage::open(db).unwrap().snapshot();
    assert!(reader.decode_term(&encoded.subject).is_err());
    assert_eq!(reader.check_term(&encoded.subject), Ok(()));

    let mut db = storage.backup();
    db.insert(ColumnFamily::Id2Str, &StrHash::new("short").hash.to_be_bytes(), b"short");
    let reader = Storage::open(db).unwrap().snapshot();
    assert!(reader
        .decode_term(&EncodedTerm::BigBlankNode { id_id: StrHash::new("short") })
        .is_err());
    assert_eq!(
        reader.decode_term(&EncodedTerm::NamedNode { iri_id: StrHash::new("short") }),
        Ok(named("short"))
    );
}

#[test]
fn decoding_names_the_first_fault() {
    let reader = store_with(&[triple()]).snapshot();
    let missing = || StorageError::Corruption(CorruptionError::MissingString);
    let bad = || StorageError::Corruption(CorruptionError::BadSmallString);
    let nowhere = StrHash::new("http://nowhere");
    let known = StrHash::new("http://a/s");
    let mut bytes = [0u8; 16];
    bytes[0] = b'a';
    bytes[3] = b'b';
    bytes[15] = 1;
    let padded = SmallString::from_be_bytes(bytes).unwrap();
    let small = SmallString::from_str("a").unwrap();

    assert_eq!(reader.decode_term(&EncodedTerm::DefaultGraph), Err(missing()));
    assert_eq!(
        reader.decode_term(&EncodedTerm::NamedNode { iri_id: nowhere }),
        Err(missing())
    );
    assert_eq!(reader.decode_term(&EncodedTerm::NamedNode { iri_id: known }), Ok(named("http://a/s")));
    assert_eq!(
        reader.decode_term(&EncodedTerm::BigStringLiteral { value_id: known }),
        Err(missing())
    );
    assert_eq!(reader.decode_term(&EncodedTerm::SmallStringLiteral(padded)), Err(bad()));
    assert_eq!(
        reader.decode_term(&EncodedTerm::SmallStringLiteral(small)),
        Ok(Term::Literal(Literal::new_simple_literal("a")))
    );
    assert_eq!(
        reader.decode_term(&EncodedTerm::SmallTypedLiteral { value: padded, datatype_id: nowhere }),
        Err(bad())
    );
    assert_eq!(
        reader.decode_term(&EncodedTerm::SmallTypedLiteral { value: small, datatype_id: nowhere }),
        Err(missing())
    );
    assert_eq!(
        reader.decode_term(&EncodedTerm::BigSmallLangStringLiteral {
            value_id: nowhere,
            language: padded
        }),
        Err(missing())
    );
    assert_eq!(
        reader.decode_term(&EncodedTerm::SmallSmallLangStringLiteral {
            value: small,
            language: padded
        }),
        Err(bad())
    );

    assert_eq!(reader.decode_graph_name(&EncodedTerm::IntegerLiteral(1)), Err(missing()));
    assert_eq!(reader.decode_graph_name(&EncodedTerm::SmallBlankNode(padded)), Err(bad()));
    assert_eq!(
        reader.decode_graph_name(&EncodedTerm::NumericalBlankNode { id: 7 }),
        Ok(GraphName::BlankNode(BlankNode::new_from_unique_id(7)))
    );

    let quad = EncodedQuad {
        subject: EncodedTerm::NamedNode { iri_id: known },
        predicate: EncodedTerm::SmallBlankNode(padded),
        object: EncodedTerm::NamedNode { iri_id: nowhere },
        graph_name: EncodedTerm::IntegerLiteral(1),
    };
    assert_eq!(reader.decode_quad(&quad), Err(bad()));
    let quad = EncodedQuad {
        subject: EncodedTerm::NamedNode { iri_id: known },
        predicate: EncodedTerm::NamedNode { iri_id: known },
        object: EncodedTerm::NamedNode { iri_id: known },
        graph_name: EncodedTerm::IntegerLiteral(1),
    };
    assert_eq!(reader.decode_quad(&quad), Err(missing()));
}

#[test]
fn flushing_and_compacting_reach_every_column_family() {
    let mut storage = store_with(&[triple(), quad("http://a", "http://b", "http://c", graph("http://g"))]);
    let before = storage.backup();
    let families: Vec<ColumnFamily> = (0..12).map(column_family_at).collect();
    let flushed: Vec<u64> = families.iter().map(|cf| storage.flush_count(*cf)).collect();
    assert_eq!(flushed[ColumnFamily::Default.index()], 1);
    assert_eq!(flushed[ColumnFamily::Gspo.index()], 0);

    assert_eq!(storage.flush(), Ok(()));
    for (i, cf) in families.iter().enumerate() {
        assert_eq!(storage.flush_count(*cf), flushed[i] + 1);
        assert_eq!(storage.compaction_count(*cf), 0);
    }
    assert_eq!(storage.compact(), Ok(()));
    assert_eq!(storage.compact(), Ok(()));
    for (i, cf) in families.iter().enumerate() {
        assert_eq!(storage.flush_count(*cf), flushed[i] + 1);
        assert_eq!(storage.compaction_count(*cf), 2);
    }
    let after = storage.backup();
    for cf in &families {
        let keys = before.iter(*cf);
        assert_eq!(after.iter(*cf), keys);
        for key in &keys {
            assert_eq!(after.get(*cf, key), before.get(*cf, key));
        }
    }
    assert_eq!(storage.snapshot().validate(), Ok(()));
}

#[test]
fn an_offset_that_cannot_be_written_is_stored_as_none() {
    let at = |timezone_offset| {
        Quad::new(
            named("http://a/s"),
            named("http://a/p"),
            Term::Literal(Literal::DateTime(Timestamp { value: 5, timezone_offset })),
            GraphName::DefaultGraph,
        )
    };
    let with = store_with(&[at(Some(-1))]);
    let without = store_with(&[at(None)]);
    assert_eq!(with.backup(), without.backup());
    assert_ne!(with.backup(), store_with(&[at(Some(-2))]).backup());
    assert_eq!(with.snapshot().validate(), Ok(()));
    assert_eq!(with.snapshot().len(), Ok(1));

    let mut storage = with;
    let mut writer = storage.transaction();
    assert_eq!(writer.insert(&at(None)), Ok(false));
    assert_eq!(writer.remove(&at(Some(-1))), Ok(true));
    storage.commit(writer);
    assert!(storage.snapshot().is_empty().unwrap());
    assert_eq!(storage.snapshot().validate(), Ok(()));
}

#[test]
fn the_first_key_that_does_not_decode_stops_the_migration() {
    let old_store = |rows: &[(ColumnFamily, &[u8])]| {
        let mut db = Db::new(Storage::initial_column_families());
        db.insert(ColumnFamily::Default, b"oxversion", &0u64.to_be_bytes());
        for (cf, key) in rows {
            db.insert_empty(*cf, key);
        }
        Storage::open(db)
    };
    let ends = Err(StorageError::Corruption(CorruptionError::UnexpectedEnd));
    let no_type = Err(StorageError::Corruption(CorruptionError::InvalidTypeId));
    assert_eq!(
        old_store(&[(ColumnFamily::Dspo, &[0x01]), (ColumnFamily::Dspo, &[0x02])]),
        ends
    );
    assert_eq!(
        old_store(&[(ColumnFamily::Dspo, &[0x02]), (ColumnFamily::Dspo, &[0x30])]),
        no_type
    );
    assert_eq!(
        old_store(&[(ColumnFamily::Gspo, &[0x01]), (ColumnFamily::Dspo, &[0x02])]),
        no_type
    );
    assert_eq!(
        old_store(&[(ColumnFamily::Gspo, &[0x30]), (ColumnFamily::Gspo, &[0x07, 0x00])]),
        no_type
    );
    assert!(old_store(&[(ColumnFamily::Posg, &[0x02])]).is_ok());
}

#[test]
fn keys_with_more_behind_the_quad_are_valid() {
    let node = |id: u128| encode_term(&EncodedTerm::NumericalBlankNode { id });
    let key = [node(1), node(1), node(1)].concat();
    let mut longer = key.clone();
    longer.push(0);
    let mut db = Db::new(Storage::initial_column_families());
    for cf in [ColumnFamily::Dspo, ColumnFamily::Dpos, ColumnFamily::Dosp] {
        db.insert_empty(cf, &key);
        db.insert_empty(cf, &longer);
    }
    let reader = Storage::open(db).unwrap().snapshot();
    assert_eq!(reader.validate(), Ok(()));
    assert_eq!(reader.len(), Ok(2));
}

#[test]
fn a_commit_keeps_what_the_writer_has_beside_its_rows() {
    let mut storage = Storage::new().unwrap();
    assert_eq!(storage.flush_count(ColumnFamily::Default), 1);
    assert_eq!(storage.flush_count(ColumnFamily::Gspo), 0);
    assert_eq!(storage.compaction_count(ColumnFamily::Default), 0);
    storage.flush().unwrap();
    storage.compact().unwrap();
    let mut writer = storage.transaction();
    writer.insert(&triple()).unwrap();
    writer.remove(&triple()).unwrap();
    writer.insert(&quad("http://a", "http://b", "http://c", graph("http://g"))).unwrap();
    writer.clear().unwrap();
    storage.commit(writer);
    for i in 0..12 {
        let cf = column_family_at(i);
        assert_eq!(storage.flush_count(cf), if cf == ColumnFamily::Default { 2 } else { 1 });
        assert_eq!(storage.compaction_count(cf), 1);
    }
    let reopened = Storage::open(storage.backup()).unwrap();
    assert_eq!(reopened.flush_count(ColumnFamily::Default), 2);
    let mut old_db = Db::new(Storage::initial_column_families());
    old_db.insert(ColumnFamily::Default, b"oxversion", &0u64.to_be_bytes());
    assert_eq!(Storage::open(old_db).unwrap().flush_count(ColumnFamily::Default), 1);
}

#[test]
fn removing_a_quad_with_a_longer_key_beside_it_is_found_out() {
    let storage = store_with(&[triple()]);
    let encoded = EncodedQuad::from_quad(&triple());
    let mut db = storage.backup();
    for encoding in [QuadEncoding::Dspo, QuadEncoding::Dpos, QuadEncoding::Dosp] {
        let mut longer = StorageReader::key_of(encoding, &encoded);
        longer.push(0);
        db.insert_empty(encoding.family(), &longer);
    }
    let mut doubled = Storage::open(db).unwrap();
    assert_eq!(doubled.snapshot().validate(), Ok(()));
    let mut writer = doubled.transaction();
    assert_eq!(writer.remove(&triple()), Ok(true));
    doubled.commit(writer);
    assert_eq!(
        doubled.snapshot().validate(),
        Err(StorageError::Corruption(CorruptionError::MissingFromIndex {
            index: ColumnFamily::Dspo,
            key: StorageReader::key_of(QuadEncoding::Dspo, &encoded),
        }))
    );
}

#[test]
fn validation_names_the_first_fault() {
    let one = quad("http://a/s", "http://a/p", "http://a/o", GraphName::DefaultGraph);
    let two = quad("http://b/s", "http://b/p", "http://b/o", GraphName::DefaultGraph);
    let storage = store_with(&[one.clone(), two.clone()]);
    let key = |encoding, q: &Quad| StorageReader::key_of(encoding, &EncodedQuad::from_quad(q));
    let (first, second) = if key(QuadEncoding::Dspo, &one) < key(QuadEncoding::Dspo, &two) {
        (one, two)
    } else {
        (two, one)
    };

    let mut db = storage.backup();
    db.remove(ColumnFamily::Dpos, &key(QuadEncoding::Dpos, &first));
    db.remove(ColumnFamily::Dpos, &key(QuadEncoding::Dpos, &second));
    db.remove(ColumnFamily::Dosp, &key(QuadEncoding::Dosp, &first));
    assert_eq!(
        Storage::open(db).unwrap().snapshot().validate(),
        Err(StorageError::Corruption(CorruptionError::MissingFromIndex {
            index: ColumnFamily::Dpos,
            key: key(QuadEncoding::Dpos, &first),
        }))
    );

    let mut db = storage.backup();
    db.remove(ColumnFamily::Dspo, &key(QuadEncoding::Dspo, &first));
    db.remove(ColumnFamily::Dosp, &key(QuadEncoding::Dosp, &second));
    assert_eq!(
        Storage::open(db).unwrap().snapshot().validate(),
        Err(StorageError::Corruption(CorruptionError::MissingFromIndex {
            index: ColumnFamily::Dosp,
            key: key(QuadEncoding::Dosp, &second),
        }))
    );

    let mut db = storage.backup();
    db.remove(ColumnFamily::Id2Str, &StrHash::new("http://b/o").hash.to_be_bytes());
    db.insert(ColumnFamily::Id2Str, &StrHash::new("http://a/p").hash.to_be_bytes(), &[0xff]);
    db.insert(ColumnFamily::Id2Str, &StrHash::new("http://b/s").hash.to_be_bytes(), &[0xff]);
    assert_eq!(
        Storage::open(db).unwrap().snapshot().validate(),
        Err(StorageError::Corruption(CorruptionError::BadString))
    );

    let mut db = storage.backup();
    db.remove(ColumnFamily::Id2Str, &StrHash::new("http://a/s").hash.to_be_bytes());
    db.remove(ColumnFamily::Id2Str, &StrHash::new("http://b/s").hash.to_be_bytes());
    db.insert(ColumnFamily::Id2Str, &StrHash::new("http://a/p").hash.to_be_bytes(), &[0xff]);
    db.insert(ColumnFamily::Id2Str, &StrHash::new("http://b/p").hash.to_be_bytes(), &[0xff]);
    assert_eq!(
        Storage::open(db).unwrap().snapshot().validate(),
        Err(StorageError::Corruption(CorruptionError::MissingString))
    );
}
