use quadstore::backend::{ColumnFamily, Db};
use quadstore::binary_encoder::QuadEncoding;
use quadstore::error::LoaderError;
use quadstore::loader::{
    bulk_load_batch_size, bulk_load_threads, FileBulkLoader, IntervalPlacement, StorageBulkLoader,
    DEFAULT_BULK_LOAD_BATCH_SIZE, MAX_BULK_LOAD_BATCH_SIZE,
};
use quadstore::model::{GraphName, Literal, NamedNode, Quad, Term};
use quadstore::numeric_encoder::EncodedQuad;
use quadstore::storage::{Storage, StorageReader};
use quadstore::taxonomy::{MultiTree, TaxonomyError};
use quadstore::vocab::{OWL_CLASS, RDFS_SUB_CLASS_OF, RDF_PROPERTY};

fn named(iri: &str) -> Term {
    Term::NamedNode(NamedNode::new_unchecked(iri))
}

fn quad(s: &str, p: &str, o: &str, g: Option<&str>) -> Quad {
    Quad::new(
        named(s),
        named(p),
        named(o),
        match g {
            Some(g) => GraphName::NamedNode(NamedNode::new_unchecked(g)),
            None => GraphName::DefaultGraph,
        },
    )
}

fn sample() -> Vec<Quad> {
    vec![
        quad("http://s1", "http://pa", "http://o1", None),
        quad("http://s2", "http://pa", "http://o1", Some("http://g1")),
        quad("http://s1", "http://pa", "http://o1", None),
        Quad::new(
            named("http://s3"),
            named("http://pb"),
            Term::Literal(Literal::new_simple_literal("a literal longer than fifteen bytes")),
            GraphName::NamedNode(NamedNode::new_unchecked("http://g2")),
        ),
        quad("http://s2", "http://pa", "http://o1", Some("http://g1")),
        quad("http://s2", "http://pa", "http://o1", Some("http://g2")),
        quad("http://s4", "http://pa", "http://o2", None),
    ]
}

fn inserted(start: Storage, quads: &[Quad]) -> Db {
    let mut storage = start;
    let mut writer = storage.transaction();
    for q in quads {
        writer.insert(q).unwrap();
    }
    storage.commit(writer);
    storage.backup()
}

fn no_trees() -> (MultiTree, MultiTree) {
    (MultiTree::new(OWL_CLASS), MultiTree::new(RDF_PROPERTY))
}

#[test]
fn loading_is_inserting() {
    let expected = inserted(Storage::new().unwrap(), &sample());
    let mut loader = StorageBulkLoader::new(Storage::new().unwrap());
    assert_eq!(loader.load(&sample()), Ok(vec![]));
    let storage = loader.into_storage();
    assert_eq!(storage.backup(), expected);
    assert_eq!(storage.snapshot().len().unwrap(), 5);
    assert_eq!(storage.snapshot().validate(), Ok(()));
}

#[test]
fn the_size_of_the_batches_does_not_matter() {
    let expected = inserted(Storage::new().unwrap(), &sample());
    let (classes, properties) = no_trees();
    for size in 1..9 {
        let mut loader = StorageBulkLoader::new(Storage::new().unwrap());
        assert_eq!(loader.load_batches(&sample(), size, &classes, &properties, None), Ok(vec![]));
        assert_eq!(loader.storage().backup(), expected, "batches of {}", size);
    }
}

#[test]
fn loading_into_a_store_with_quads_is_inserting() {
    let first = vec![
        quad("http://s1", "http://pa", "http://o1", None),
        quad("http://s9", "http://pz", "http://o9", Some("http://g2")),
    ];
    let start = || Storage::open(inserted(Storage::new().unwrap(), &first)).unwrap();
    let expected = inserted(start(), &sample());
    let mut loader = StorageBulkLoader::new(start()).set_num_threads(3);
    loader.load(&sample()).unwrap();
    assert_eq!(loader.into_storage().backup(), expected);
}

#[test]
fn a_batch_is_staged_sorted_and_without_duplicates() {
    let mut file = FileBulkLoader::new();
    file.encode(&sample());
    assert_eq!(file.len(), 5);
    let mut storage = Storage::new().unwrap();
    let mut counter = 7u64;
    let mut again = FileBulkLoader::new();
    again.load(&mut storage, &sample(), &mut counter);
    assert_eq!(counter, 12);
    assert_eq!(again.len(), 0);
    let db = storage.backup();
    for cf in [ColumnFamily::Dspo, ColumnFamily::Dpos, ColumnFamily::Dosp] {
        assert_eq!(db.len(cf), 2);
        let keys = db.iter(cf);
        let mut sorted = keys.clone();
        sorted.sort();
        sorted.dedup();
        assert_eq!(keys, sorted);
    }
    for cf in [ColumnFamily::Spog, ColumnFamily::Gosp, ColumnFamily::Posg] {
        assert_eq!(db.len(cf), 3);
    }
    assert_eq!(db.len(ColumnFamily::Graphs), 2);
}

#[test]
fn threads_follow_cores_and_wishes() {
    assert_eq!(bulk_load_threads(None, None, None), 2);
    assert_eq!(bulk_load_threads(None, None, Some(1)), 2);
    assert_eq!(bulk_load_threads(None, None, Some(3)), 3);
    assert_eq!(bulk_load_threads(None, None, Some(64)), 4);
    assert_eq!(bulk_load_threads(Some(1), None, Some(8)), 2);
    assert_eq!(bulk_load_threads(Some(3), None, Some(8)), 3);
    assert_eq!(bulk_load_threads(Some(16), None, Some(8)), 4);
    assert_eq!(bulk_load_threads(Some(16), Some(1), Some(2)), 2);
    assert_eq!(bulk_load_threads(None, Some(2999), Some(8)), 2);
    assert_eq!(bulk_load_threads(None, Some(3000), Some(8)), 3);
    assert_eq!(bulk_load_threads(None, Some(usize::MAX), Some(8)), 4);
}

#[test]
fn batches_follow_memory() {
    assert_eq!(bulk_load_batch_size(None, 0, 2), DEFAULT_BULK_LOAD_BATCH_SIZE);
    assert_eq!(bulk_load_batch_size(None, 6_000_000, 4), 1_500_000);
    assert_eq!(bulk_load_batch_size(None, u64::MAX, 4), MAX_BULK_LOAD_BATCH_SIZE);
    assert_eq!(bulk_load_batch_size(Some(1), u64::MAX, 2), DEFAULT_BULK_LOAD_BATCH_SIZE);
    assert_eq!(bulk_load_batch_size(Some(5000), 0, 2), 2_500_000);
    assert_eq!(bulk_load_batch_size(Some(usize::MAX), 0, 3), MAX_BULK_LOAD_BATCH_SIZE);
}

#[test]
fn the_machine_allows_a_batch_size() {
    let loader = StorageBulkLoader::new(Storage::new().unwrap()).set_max_memory_size_in_megabytes(4000);
    let size = loader.machine_batch_size();
    assert!(size == 1_000_000 || size == 4_000_000 / 3 || size == 2_000_000);
    let loader = StorageBulkLoader::new(Storage::new().unwrap());
    let size = loader.machine_batch_size();
    assert!(DEFAULT_BULK_LOAD_BATCH_SIZE <= size && size <= MAX_BULK_LOAD_BATCH_SIZE);
}

#[test]
fn progress_is_due_at_every_million() {
    let mut displayed = 0u64;
    assert_eq!(StorageBulkLoader::on_possible_progress(999_999, &mut displayed), None);
    assert_eq!(displayed, 999_999);
    assert_eq!(
        StorageBulkLoader::on_possible_progress(1_000_000, &mut displayed),
        Some(1_000_000)
    );
    assert_eq!(StorageBulkLoader::on_possible_progress(1_999_999, &mut displayed), None);
    assert_eq!(
        StorageBulkLoader::on_possible_progress(5_000_001, &mut displayed),
        Some(5_000_001)
    );
    assert_eq!(StorageBulkLoader::on_possible_progress(5_000_001, &mut displayed), None);
    assert_eq!(displayed, 5_000_001);
}

fn taxonomy_lines() -> Vec<String> {
    vec![
        format!("<http://a> <{}> <http://b> .", RDFS_SUB_CLASS_OF),
        format!("<http://b> <{}> <http://c> .", RDFS_SUB_CLASS_OF),
        format!("<http://a> <{}> <http://d> .", RDFS_SUB_CLASS_OF),
    ]
}

fn schema_quads() -> Vec<Quad> {
    vec![
        quad("http://a", RDFS_SUB_CLASS_OF, "http://b", None),
        quad("http://b", RDFS_SUB_CLASS_OF, "http://c", None),
        quad("http://a", RDFS_SUB_CLASS_OF, "http://d", None),
        quad("http://a", "http://other", "http://c", None),
        quad("http://a", RDFS_SUB_CLASS_OF, "http://b", Some("http://g")),
    ]
}

fn value_of(db: &Db, cf: ColumnFamily, encoding: QuadEncoding, q: &Quad) -> Vec<u8> {
    db.get(cf, &StorageReader::key_of(encoding, &EncodedQuad::from_quad(q))).unwrap().clone()
}

#[test]
fn values_carry_the_annotations() {
    let mut loader = StorageBulkLoader::new(Storage::new().unwrap());
    assert_eq!(loader.load_oxiuse_value(&schema_quads(), &taxonomy_lines()), Ok(vec![]));
    let storage = loader.into_storage();
    let db = storage.backup();
    let quads = schema_quads();
    let a_b = value_of(&db, ColumnFamily::Dspo, QuadEncoding::Dspo, &quads[0]);
    assert_eq!(a_b[0], 50);
    assert_eq!(a_b.len(), 1 + 16 + 18);
    assert_eq!(&a_b[1..17], &[0, 0, 0, 0, 0, 0, 0, 3, 0, 0, 0, 0, 0, 0, 0, 4]);
    assert_eq!(value_of(&db, ColumnFamily::Dpos, QuadEncoding::Dpos, &quads[0]), a_b);
    assert_eq!(value_of(&db, ColumnFamily::Dosp, QuadEncoding::Dosp, &quads[0]), a_b);
    assert!(value_of(&db, ColumnFamily::Dspo, QuadEncoding::Dspo, &quads[3]).is_empty());
    assert!(value_of(&db, ColumnFamily::Gspo, QuadEncoding::Gspo, &quads[4]).is_empty());
    assert_eq!(db.len(ColumnFamily::Dspo), 4);
    assert_eq!(storage.snapshot().validate(), Ok(()));
}

#[test]
fn only_asserted_sub_class_triples_have_rows() {
    let asserted = schema_quads()[..3].to_vec();
    let mut loader = StorageBulkLoader::new(Storage::new().unwrap());
    loader.load_oxiuse_value(&asserted, &taxonomy_lines()).unwrap();
    let db = loader.into_storage().backup();
    let a_c = quad("http://a", RDFS_SUB_CLASS_OF, "http://c", None);
    let key = StorageReader::key_of(QuadEncoding::Dspo, &EncodedQuad::from_quad(&a_c));
    assert_eq!(db.get(ColumnFamily::Dspo, &key), None);
    let a_b = value_of(&db, ColumnFamily::Dspo, QuadEncoding::Dspo, &asserted[0]);
    assert!(!a_b.is_empty());
    assert_eq!(a_b[0], 50);
    assert_eq!(db.len(ColumnFamily::Dspo), 3);
}

#[test]
fn keys_carry_the_annotations() {
    let mut loader = StorageBulkLoader::new(Storage::new().unwrap());
    assert_eq!(loader.load_oxiuse_key(&schema_quads(), &taxonomy_lines()), Ok(vec![]));
    let db = loader.into_storage().backup();
    let quads = schema_quads();
    let plain = StorageReader::key_of(QuadEncoding::Dpos, &EncodedQuad::from_quad(&quads[0]));
    assert!(!db.contains_key(ColumnFamily::Dpos, &plain));
    let keys = db.scan_prefix(ColumnFamily::Dpos, &plain);
    assert_eq!(keys.len(), 1);
    assert_eq!(keys[0].len(), plain.len() + 1 + 16 + 18);
    assert_eq!(keys[0][plain.len()], 50);
    assert_eq!(db.get(ColumnFamily::Dpos, &keys[0]), Some(&vec![]));
    assert_eq!(
        QuadEncoding::Dpos.decode(&keys[0]).unwrap(),
        EncodedQuad::from_quad(&quads[0])
    );
    let other = StorageReader::key_of(QuadEncoding::Dspo, &EncodedQuad::from_quad(&quads[3]));
    assert!(db.contains_key(ColumnFamily::Dspo, &other));
    let named_graph = StorageReader::key_of(QuadEncoding::Gspo, &EncodedQuad::from_quad(&quads[4]));
    assert!(db.contains_key(ColumnFamily::Gspo, &named_graph));
}

#[test]
fn annotated_batches_can_be_loaded_one_by_one() {
    let (classes, properties) = FileBulkLoader::construct_tree(&taxonomy_lines()).unwrap();
    let mut whole = StorageBulkLoader::new(Storage::new().unwrap());
    whole
        .load_batches(&schema_quads(), 100, &classes, &properties, Some(IntervalPlacement::Value))
        .unwrap();
    let mut parts = StorageBulkLoader::new(Storage::new().unwrap());
    parts
        .load_batches(&schema_quads(), 2, &classes, &properties, Some(IntervalPlacement::Value))
        .unwrap();
    assert_eq!(whole.storage().backup(), parts.storage().backup());
}

#[test]
fn a_taxonomy_in_a_circle_stops_the_load() {
    let lines = vec![
        format!("<http://a> <{}> <http://b> .", RDFS_SUB_CLASS_OF),
        format!("<http://b> <{}> <http://a> .", RDFS_SUB_CLASS_OF),
        format!("<http://a> <{}> <{}> .", RDFS_SUB_CLASS_OF, OWL_CLASS),
    ];
    let mut loader = StorageBulkLoader::new(Storage::new().unwrap());
    assert_eq!(
        loader.load_oxiuse_value(&schema_quads(), &lines),
        Err(LoaderError::Taxonomy(TaxonomyError::TooDeep))
    );
    assert!(loader.into_storage().snapshot().is_empty().unwrap());
}

#[test]
fn progress_can_be_told_between_batches() {
    let expected = inserted(Storage::new().unwrap(), &sample());
    let (classes, properties) = no_trees();
    let quads = sample();
    let mut loader = StorageBulkLoader::new(Storage::new().unwrap());
    let mut file_loader = FileBulkLoader::new();
    let mut done: u64 = 0;
    let mut displayed: u64 = 0;
    let mut counts = Vec::new();
    for batch in quads.chunks(3) {
        let before = done;
        assert_eq!(
            loader.load_batch(&mut file_loader, batch, &mut done, &classes, &properties, None),
            Ok(())
        );
        assert!(done > before);
        assert_eq!(file_loader.len(), 0);
        counts.push(done);
        assert_eq!(StorageBulkLoader::on_possible_progress(done, &mut displayed), None);
        assert_eq!(displayed, done);
    }
    assert_eq!(counts.len(), 3);
    assert_eq!(loader.storage().backup(), expected);
    assert_eq!(
        StorageBulkLoader::on_possible_progress(DEFAULT_BULK_LOAD_BATCH_SIZE as u64, &mut displayed),
        Some(DEFAULT_BULK_LOAD_BATCH_SIZE as u64)
    );
}
