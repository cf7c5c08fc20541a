//! The bulk loader: quads are staged batch by batch in an empty store, and
//! each batch is handed to the store as sorted files, one for each column
//! family.
//!
//! The batches are loaded one after the other. The number of worker
//! threads enters the size of a batch only.

use vstd::prelude::*;
use sysinfo::SystemExt;
use crate::backend::byte_strings;
use crate::backend::empty_db;
use crate::backend::scan_result;
use crate::backend::ColumnFamily;
use crate::backend::Db;
use crate::backend::DbView;
use crate::backend::Table;
use crate::binary_encoder::parse_quad;
use crate::binary_encoder::QuadEncoding;
use crate::error::LoaderError;
use crate::error::StorageError;
use crate::index::coherent;
use crate::index::index_coherent;
use crate::index::row_coherent;
use crate::index::view_wf;
use crate::taxonomy::TaxonomyError;
use crate::taxonomy_file::file_can_be_labelled;
use crate::taxonomy_file::lines_bytes;
use crate::taxonomy_file::taxonomy_of;
use crate::taxonomy_file::TaxonomyKind;
use crate::vocab::OWL_CLASS;
use crate::vocab::RDF_PROPERTY;
use crate::writer::lemma_insert_effect;
use crate::interval_encoder::encoded_interval_encoding;
use crate::interval_encoder::interval_annotation;
use crate::model::Quad;
use crate::storage::merged;
use crate::storage::saturating_sum;
use crate::storage::Storage;
use crate::strings::Rows;
use crate::taxonomy::MultiTree;
use crate::writer::insert_effect;
use crate::writer::StorageWriter;

verus! {

/// The smallest batch, and the number of quads between two reports of
/// progress.
pub const DEFAULT_BULK_LOAD_BATCH_SIZE: usize = 1_000_000;

/// The largest batch.
pub const MAX_BULK_LOAD_BATCH_SIZE: usize = 100_000_000;

/// The largest number of cores that the loader counts on.
pub const MAX_BULK_LOAD_CORES: usize = 4;

/// The state of the machine as the outside crate `sysinfo` reads it.
#[verifier::external_type_specification]
#[verifier::external_body]
pub struct ExSystem(sysinfo::System);

/// Reads the state of the machine with `sysinfo::SystemExt::new_all`.
/// Nothing is known of what it finds.
#[verifier::external_body]
fn system_new_all() -> (system: sysinfo::System) {
    sysinfo::System::new_all()
}

/// The number of physical cores as `sysinfo::SystemExt::physical_core_count`
/// gives it: any number, or none if it could not be found out.
#[verifier::external_body]
fn system_physical_core_count(system: &sysinfo::System) -> (cores: Option<usize>) {
    system.physical_core_count()
}

/// The free memory in bytes as `sysinfo::SystemExt::free_memory` gives it:
/// any number.
#[verifier::external_body]
fn system_free_memory(system: &sysinfo::System) -> (bytes: u64) {
    system.free_memory()
}

/// The smaller of two numbers.
pub open spec fn min_of(a: int, b: int) -> int {
    if a <= b {
        a
    } else {
        b
    }
}

/// The larger of two numbers.
pub open spec fn max_of(a: int, b: int) -> int {
    if a >= b {
        a
    } else {
        b
    }
}

/// The number of cores that the loader counts on: the physical cores, two
/// if their number is not known, and no more than four.
pub open spec fn counted_cores(cores: Option<usize>) -> int {
    min_of(
        MAX_BULK_LOAD_CORES as int,
        match cores {
            Some(n) => n as int,
            None => 2,
        },
    )
}

/// The number of worker threads that a load is sized for: what the caller
/// asked for, or else a thousandth of the memory limit in megabytes, or
/// else the number of cores; no more than the number of cores and no less
/// than two.
pub open spec fn thread_count(
    num_threads: Option<usize>,
    max_memory_size: Option<usize>,
    cores: Option<usize>,
) -> int {
    let c = counted_cores(cores);
    let wanted = match num_threads {
        Some(n) => n as int,
        None => match max_memory_size {
            Some(m) => m * 1000 / (DEFAULT_BULK_LOAD_BATCH_SIZE as int),
            None => c,
        },
    };
    max_of(2, min_of(c, wanted))
}

/// The number of quads of a batch: a thousand times the memory limit in
/// megabytes, or else the free memory in bytes, divided by the number of
/// threads; no less than the smallest batch and no more than the largest.
pub open spec fn batch_size(max_memory_size: Option<usize>, free_memory: u64, threads: int) -> int {
    let share = match max_memory_size {
        Some(m) => m * 1000 / threads,
        None => free_memory as int / threads,
    };
    min_of(
        MAX_BULK_LOAD_BATCH_SIZE as int,
        max_of(DEFAULT_BULK_LOAD_BATCH_SIZE as int, share),
    )
}

/// The number of worker threads that a load is sized for.
pub fn bulk_load_threads(
    num_threads: Option<usize>,
    max_memory_size: Option<usize>,
    cores: Option<usize>,
) -> (threads: usize)
    ensures
        threads == thread_count(num_threads, max_memory_size, cores),
        2 <= threads <= MAX_BULK_LOAD_CORES,
{
    let known: usize = match cores {
        Some(n) => n,
        None => 2,
    };
    let c: usize = if known < MAX_BULK_LOAD_CORES {
        known
    } else {
        MAX_BULK_LOAD_CORES
    };
    let capped: usize = match num_threads {
        Some(n) => if n < c {
            n
        } else {
            c
        },
        None => match max_memory_size {
            Some(m) => {
                // A thousand times the limit in megabytes divided by a
                // million is a thousandth of the limit: the product, which
                // might not fit, is not formed.
                let wanted: usize = m / 1000;
                proof {
                    assert(m * 1000 / 1_000_000 == m / 1000) by (nonlinear_arith);
                }
                if wanted < c {
                    wanted
                } else {
                    c
                }
            },
            None => c,
        },
    };
    if capped < 2 {
        2
    } else {
        capped
    }
}

/// The number of quads of a batch.
pub fn bulk_load_batch_size(max_memory_size: Option<usize>, free_memory: u64, threads: usize) -> (size:
    usize)
    requires
        threads >= 1,
    ensures
        size == batch_size(max_memory_size, free_memory, threads as int),
        DEFAULT_BULK_LOAD_BATCH_SIZE <= size <= MAX_BULK_LOAD_BATCH_SIZE,
{
    let share: u128 = match max_memory_size {
        Some(m) => {
            proof {
                assert(m as u128 * 1000 <= u128::MAX) by {
                    assert(m <= usize::MAX);
                }
            }
            (m as u128) * 1000 / (threads as u128)
        },
        None => (free_memory as u128) / (threads as u128),
    };
    if share < DEFAULT_BULK_LOAD_BATCH_SIZE as u128 {
        DEFAULT_BULK_LOAD_BATCH_SIZE
    } else if share > MAX_BULK_LOAD_BATCH_SIZE as u128 {
        MAX_BULK_LOAD_BATCH_SIZE
    } else {
        share as usize
    }
}

/// Whether the count of loaded quads has passed a multiple of the
/// smallest batch since progress was last reported.
pub open spec fn progress_due(done: u64, displayed: u64) -> bool {
    done / (DEFAULT_BULK_LOAD_BATCH_SIZE as u64) > displayed / (DEFAULT_BULK_LOAD_BATCH_SIZE as u64)
}

/// The content after quads were inserted, first to last.
pub open spec fn inserts_effect(v: DbView, quads: Seq<Quad>) -> DbView
    decreases quads.len(),
{
    if quads.len() == 0 {
        v
    } else {
        insert_effect(inserts_effect(v, quads.drop_last()), quads.last())
    }
}

/// The content of the stage of a batch: what inserting the quads of the
/// batch into an empty store gives.
pub open spec fn staged(quads: Seq<Quad>) -> DbView {
    inserts_effect(empty_db(), quads)
}

/// The number of quads of a staged content.
pub open spec fn staged_rows(v: DbView) -> nat {
    saturating_sum(v[ColumnFamily::Dspo].len(), v[ColumnFamily::Gspo].len())
}

/// The interval annotation of the triple of a key of an index of the
/// default graph; empty for a key that does not decode.
pub open spec fn key_annotation(
    encoding: QuadEncoding,
    k: Seq<u8>,
    class_tree: MultiTree,
    property_tree: MultiTree,
) -> Seq<u8> {
    match parse_quad(encoding, k) {
        Ok(q) => interval_annotation(q.subject, q.predicate, q.object, class_tree, property_tree),
        Err(_) => Seq::empty(),
    }
}

/// The rows of an index with the interval annotation of each triple as
/// the value of its row.
pub open spec fn valued(
    table: Rows,
    encoding: QuadEncoding,
    class_tree: MultiTree,
    property_tree: MultiTree,
) -> Rows {
    Map::new(
        |k: Seq<u8>| table.contains_key(k),
        |k: Seq<u8>| key_annotation(encoding, k, class_tree, property_tree),
    )
}

/// The rows of an index with the interval annotation of each triple
/// behind its key, and empty values.
pub open spec fn suffixed(
    table: Rows,
    encoding: QuadEncoding,
    class_tree: MultiTree,
    property_tree: MultiTree,
) -> Rows {
    Map::new(
        |k2: Seq<u8>|
            exists|k: Seq<u8>| #[trigger]
                table.contains_key(k) && k2 == k + key_annotation(
                    encoding,
                    k,
                    class_tree,
                    property_tree,
                ),
        |k2: Seq<u8>| Seq::<u8>::empty(),
    )
}

/// Where the interval annotation of a triple is put.
#[derive(Clone, Copy, Debug, PartialEq, Eq, Structural)]
pub enum IntervalPlacement {
    /// As the value of the row of the triple.
    Value,
    /// Behind the three terms in the key of the row of the triple.
    Key,
}

/// The rows of an index with the interval annotations put in their place.
pub open spec fn annotated(
    table: Rows,
    encoding: QuadEncoding,
    class_tree: MultiTree,
    property_tree: MultiTree,
    placement: IntervalPlacement,
) -> Rows {
    match placement {
        IntervalPlacement::Value => valued(table, encoding, class_tree, property_tree),
        IntervalPlacement::Key => suffixed(table, encoding, class_tree, property_tree),
    }
}

/// A staged content with the interval annotations put on the three
/// indexes of the default graph.
pub open spec fn annotated_stage(
    v: DbView,
    class_tree: MultiTree,
    property_tree: MultiTree,
    placement: IntervalPlacement,
) -> DbView {
    v.insert(
        ColumnFamily::Dspo,
        annotated(v[ColumnFamily::Dspo], QuadEncoding::Dspo, class_tree, property_tree, placement),
    ).insert(
        ColumnFamily::Dpos,
        annotated(v[ColumnFamily::Dpos], QuadEncoding::Dpos, class_tree, property_tree, placement),
    ).insert(
        ColumnFamily::Dosp,
        annotated(v[ColumnFamily::Dosp], QuadEncoding::Dosp, class_tree, property_tree, placement),
    )
}

/// Whether every key of an index decodes.
pub open spec fn table_decodes(table: Rows, encoding: QuadEncoding) -> bool {
    forall|k: Seq<u8>| #[trigger] table.contains_key(k) ==> parse_quad(encoding, k) is Ok
}

/// Whether every key of the three indexes of the default graph decodes.
pub open spec fn stage_decodes(v: DbView) -> bool {
    &&& table_decodes(v[ColumnFamily::Dspo], QuadEncoding::Dspo)
    &&& table_decodes(v[ColumnFamily::Dpos], QuadEncoding::Dpos)
    &&& table_decodes(v[ColumnFamily::Dosp], QuadEncoding::Dosp)
}

/// The loader of one batch: a stage in which the quads of the batch are
/// deduplicated and their keys sorted, index by index.
pub struct FileBulkLoader {
    staging: StorageWriter,
}

impl View for FileBulkLoader {
    type V = DbView;

    closed spec fn view(&self) -> DbView {
        self.staging@
    }
}

impl FileBulkLoader {
    /// The invariant of a loader: that of its stage.
    pub closed spec fn wf(&self) -> bool {
        self.staging.wf()
    }

    /// A loader with an empty stage.
    pub fn new() -> (loader: FileBulkLoader)
        ensures
            loader.wf(),
            loader@ == empty_db(),
    {
        FileBulkLoader { staging: StorageWriter::of_db(Db::new(Storage::initial_column_families())) }
    }

    /// Stages the quads of a batch: each quad that the stage lacks gets
    /// its key in every index of its group, its graph name in the set of
    /// graphs, and its texts in the string table.
    pub fn encode(&mut self, quads: &[Quad])
        requires
            old(self).wf(),
        ensures
            final(self).wf(),
            final(self)@ == inserts_effect(old(self)@, quads@),
    {
        let mut i: usize = 0;
        proof {
            assert(quads@.subrange(0, 0) =~= Seq::<Quad>::empty());
        }
        while i < quads.len()
            invariant
                i <= quads@.len(),
                self.wf(),
                self@ == inserts_effect(old(self)@, quads@.subrange(0, i as int)),
            decreases quads@.len() - i,
        {
            proof {
                assert(quads@.subrange(0, i + 1).drop_last() =~= quads@.subrange(0, i as int));
                assert(quads@.subrange(0, i + 1).last() == quads@[i as int]);
            }
            let inserted = self.staging.insert(&quads[i]);
            i = i + 1;
        }
        proof {
            assert(quads@.subrange(0, quads@.len() as int) =~= quads@);
        }
    }

    /// The number of quads of the stage.
    pub fn len(&self) -> (n: usize)
        requires
            self.wf(),
        ensures
            n == staged_rows(self@),
    {
        let db = self.staging.db();
        db.len(ColumnFamily::Dspo).saturating_add(db.len(ColumnFamily::Gspo))
    }

    /// Hands the stage to a store as sorted files, one for each column
    /// family, and empties the stage.
    pub fn save(&mut self, storage: &mut Storage)
        requires
            old(self).wf(),
            old(storage).wf(),
        ensures
            final(self).wf(),
            final(storage).wf(),
            final(storage)@ == merged(old(self)@, old(storage)@),
            final(self)@ == empty_db(),
    {
        storage.ingest(self.staging.db());
        self.staging = StorageWriter::of_db(Db::new(Storage::initial_column_families()));
    }

    /// Loads a batch into a store and adds the number of its quads to a
    /// counter.
    pub fn load(&mut self, storage: &mut Storage, quads: &[Quad], counter: &mut u64)
        requires
            old(self).wf(),
            old(self)@ == empty_db(),
            old(storage).wf(),
        ensures
            final(self).wf(),
            final(self)@ == empty_db(),
            final(storage).wf(),
            final(storage)@ == merged(staged(quads@), old(storage)@),
            *final(counter) == saturating_rows(*old(counter), staged_rows(staged(quads@))),
    {
        self.encode(quads);
        let size: usize = self.len();
        self.save(storage);
        *counter = counter.saturating_add(size as u64);
    }

    /// Puts the interval annotation of every triple of one index of the
    /// stage in its place.
#[verifier::rlimit(30)]
    fn annotate(
        &mut self,
        encoding: QuadEncoding,
        class_tree: &MultiTree,
        property_tree: &MultiTree,
        placement: IntervalPlacement,
    ) -> (r: Result<(), StorageError>)
        requires
            old(self).wf(),
            class_tree.wf(),
            property_tree.wf(),
        ensures
            final(self).wf(),
            r is Ok == table_decodes(old(self)@[encoding.spec_family()], encoding),
            r is Ok ==> final(self)@ == old(self)@.insert(
                encoding.spec_family(),
                annotated(
                    old(self)@[encoding.spec_family()],
                    encoding,
                    *class_tree,
                    *property_tree,
                    placement,
                ),
            ),
    {
        let ghost v = self@;
        let ghost table = v[encoding.spec_family()];
        let keys = self.staging.db().iter(encoding.family());
        let ghost all = byte_strings(keys@);
        let mut rows = Table::new();
        let mut i: usize = 0;
        while i < keys.len()
            invariant
                i <= keys@.len(),
                self.wf(),
                self@ == v,
                class_tree.wf(),
                property_tree.wf(),
                rows.wf(),
                all == byte_strings(keys@),
                table == v[encoding.spec_family()],
                scan_result(table, Seq::<u8>::empty(), all),
                forall|j: int| 0 <= j < i ==> parse_quad(encoding, #[trigger] all[j]) is Ok,
                forall|k2: Seq<u8>|
                    rows@.contains_key(k2) <==> exists|j: int|
                        0 <= j < i && k2 == placed_key(
                            encoding,
                            #[trigger] all[j],
                            *class_tree,
                            *property_tree,
                            placement,
                        ),
                forall|j: int|
                    0 <= j < i ==> rows@[placed_key(
                        encoding,
                        #[trigger] all[j],
                        *class_tree,
                        *property_tree,
                        placement,
                    )] == placed_value(encoding, all[j], *class_tree, *property_tree, placement),
            decreases keys@.len() - i,
        {
            proof {
                assert(all[i as int] == keys@[i as int]@);
                assert(all.contains(all[i as int]));
            }
            let quad = match encoding.decode(keys[i].as_slice()) {
                Ok(quad) => quad,
                Err(e) => {
                    proof {
                        assert(table.contains_key(all[i as int]));
                    }
                    return Err(e);
                },
            };
            let mut annotation = encoded_interval_encoding(
                &quad.subject,
                &quad.predicate,
                &quad.object,
                class_tree,
                property_tree,
            );
            let ghost before = rows@;
            let ghost k = all[i as int];
            let ghost note = key_annotation(encoding, k, *class_tree, *property_tree);
            match placement {
                IntervalPlacement::Value => {
                    rows.insert(keys[i].as_slice(), annotation.as_slice());
                },
                IntervalPlacement::Key => {
                    let mut key = crate::backend::copy_bytes(keys[i].as_slice());
                    key.append(&mut annotation);
                    rows.insert_empty(key.as_slice());
                },
            }
            proof {
                let pk = placed_key(encoding, k, *class_tree, *property_tree, placement);
                let pv = placed_value(encoding, k, *class_tree, *property_tree, placement);
                assert(rows@ == before.insert(pk, pv));
                assert forall|k2: Seq<u8>| rows@.contains_key(k2) <==> exists|j: int|
                    0 <= j < i + 1 && k2 == placed_key(
                        encoding,
                        #[trigger] all[j],
                        *class_tree,
                        *property_tree,
                        placement,
                    ) by {
                    if rows@.contains_key(k2) && k2 != pk {
                        assert(before.contains_key(k2));
                        let j = choose|j: int|
                            0 <= j < i && k2 == placed_key(
                                encoding,
                                #[trigger] all[j],
                                *class_tree,
                                *property_tree,
                                placement,
                            );
                        assert(0 <= j < i + 1);
                    }
                    if exists|j: int|
                        0 <= j < i + 1 && k2 == placed_key(
                            encoding,
                            #[trigger] all[j],
                            *class_tree,
                            *property_tree,
                            placement,
                        ) {
                        let j = choose|j: int|
                            0 <= j < i + 1 && k2 == placed_key(
                                encoding,
                                #[trigger] all[j],
                                *class_tree,
                                *property_tree,
                                placement,
                            );
                        if j < i {
                            assert(before.contains_key(k2));
                        }
                    }
                }
                assert forall|j: int| 0 <= j < i + 1 implies rows@[placed_key(
                    encoding,
                    #[trigger] all[j],
                    *class_tree,
                    *property_tree,
                    placement,
                )] == placed_value(encoding, all[j], *class_tree, *property_tree, placement) by {
                    let pj = placed_key(encoding, all[j], *class_tree, *property_tree, placement);
                    if j < i && pj == pk {
                        lemma_placed_value(
                            encoding,
                            all[j],
                            k,
                            *class_tree,
                            *property_tree,
                            placement,
                        );
                    }
                }
            }
            i = i + 1;
        }
        let ghost target = annotated(table, encoding, *class_tree, *property_tree, placement);
        proof {
            assert forall|k: Seq<u8>| #[trigger] table.contains_key(k) implies parse_quad(
                encoding,
                k,
            ) is Ok by {
                assert(k.subrange(0, 0) =~= Seq::<u8>::empty());
                assert(all.contains(k));
                let j = choose|j: int| 0 <= j < all.len() && all[j] == k;
                assert(parse_quad(encoding, all[j]) is Ok);
            }
            assert forall|k2: Seq<u8>| rows@.contains_key(k2) == target.contains_key(k2) by {
                if rows@.contains_key(k2) {
                    let j = choose|j: int|
                        0 <= j < keys@.len() && k2 == placed_key(
                            encoding,
                            #[trigger] all[j],
                            *class_tree,
                            *property_tree,
                            placement,
                        );
                    assert(all.contains(all[j]));
                    assert(table.contains_key(all[j]));
                }
                if target.contains_key(k2) {
                    let k = match placement {
                        IntervalPlacement::Value => k2,
                        IntervalPlacement::Key => choose|k: Seq<u8>| #[trigger]
                            table.contains_key(k) && k2 == k + key_annotation(
                                encoding,
                                k,
                                *class_tree,
                                *property_tree,
                            ),
                    };
                    assert(table.contains_key(k));
                    assert(k.subrange(0, 0) =~= Seq::<u8>::empty());
                    assert(all.contains(k));
                    let j = choose|j: int| 0 <= j < all.len() && all[j] == k;
                    assert(k2 == placed_key(
                        encoding,
                        all[j],
                        *class_tree,
                        *property_tree,
                        placement,
                    ));
                }
            }
            assert forall|k2: Seq<u8>| rows@.contains_key(k2) implies rows@[k2] == target[k2] by {
                let j = choose|j: int|
                    0 <= j < keys@.len() && k2 == placed_key(
                        encoding,
                        #[trigger] all[j],
                        *class_tree,
                        *property_tree,
                        placement,
                    );
                assert(rows@[placed_key(encoding, all[j], *class_tree, *property_tree, placement)]
                    == placed_value(encoding, all[j], *class_tree, *property_tree, placement));
                assert(target.contains_key(k2));
                match placement {
                    IntervalPlacement::Value => {
                        assert(target[k2] == key_annotation(
                            encoding,
                            k2,
                            *class_tree,
                            *property_tree,
                        ));
                    },
                    IntervalPlacement::Key => {
                        assert(target[k2] == Seq::<u8>::empty());
                    },
                }
            }
            assert(rows@ =~= target);
        }
        self.staging.replace_table(encoding.family(), rows);
        Ok(())
    }
}

/// The key under which the row of a triple is staged, given where the
/// interval annotation is put.
pub open spec fn placed_key(
    encoding: QuadEncoding,
    k: Seq<u8>,
    class_tree: MultiTree,
    property_tree: MultiTree,
    placement: IntervalPlacement,
) -> Seq<u8> {
    match placement {
        IntervalPlacement::Value => k,
        IntervalPlacement::Key => k + key_annotation(encoding, k, class_tree, property_tree),
    }
}

/// The value with which the row of a triple is staged, given where the
/// interval annotation is put.
pub open spec fn placed_value(
    encoding: QuadEncoding,
    k: Seq<u8>,
    class_tree: MultiTree,
    property_tree: MultiTree,
    placement: IntervalPlacement,
) -> Seq<u8> {
    match placement {
        IntervalPlacement::Value => key_annotation(encoding, k, class_tree, property_tree),
        IntervalPlacement::Key => Seq::empty(),
    }
}

/// Rows that are staged under the same key are staged with the same
/// value.
proof fn lemma_placed_value(
    encoding: QuadEncoding,
    a: Seq<u8>,
    b: Seq<u8>,
    class_tree: MultiTree,
    property_tree: MultiTree,
    placement: IntervalPlacement,
)
    requires
        placed_key(encoding, a, class_tree, property_tree, placement) == placed_key(
            encoding,
            b,
            class_tree,
            property_tree,
            placement,
        ),
    ensures
        placed_value(encoding, a, class_tree, property_tree, placement) == placed_value(
            encoding,
            b,
            class_tree,
            property_tree,
            placement,
        ),
{
}

/// A counter with a number of rows added, or the largest number if the
/// sum does not fit.
pub open spec fn saturating_rows(counter: u64, rows: nat) -> u64 {
    if counter + rows > u64::MAX {
        u64::MAX
    } else {
        (counter + rows) as u64
    }
}

/// A store without rows is coherent.
pub proof fn lemma_empty_coherent()
    ensures
        coherent(empty_db()),
        view_wf(empty_db()),
{
    let v = empty_db();
    assert forall|cf: ColumnFamily| #[trigger] v.contains_key(cf) && v[cf].dom().finite() by {
        assert(v[cf] =~= Map::<Seq<u8>, Seq<u8>>::empty());
    }
    assert forall|encoding: QuadEncoding| #[trigger] index_coherent(v, encoding) by {}
}

/// Inserting quads keeps the indexes coherent.
pub proof fn lemma_inserts_coherent(v: DbView, quads: Seq<Quad>)
    requires
        view_wf(v),
    ensures
        view_wf(inserts_effect(v, quads)),
        v[ColumnFamily::Id2Str].submap_of(inserts_effect(v, quads)[ColumnFamily::Id2Str]),
        coherent(v) ==> coherent(inserts_effect(v, quads)),
    decreases quads.len(),
{
    if quads.len() > 0 {
        let rest = quads.drop_last();
        lemma_inserts_coherent(v, rest);
        lemma_insert_effect(inserts_effect(v, rest), quads.last());
        let mid = inserts_effect(v, rest)[ColumnFamily::Id2Str];
        let end = inserts_effect(v, quads)[ColumnFamily::Id2Str];
        assert forall|k: Seq<u8>| #[trigger] v[ColumnFamily::Id2Str].dom().contains(k) implies #[trigger] end.dom().contains(
            k,
        ) && v[ColumnFamily::Id2Str][k] == end[k] by {
            assert(mid.dom().contains(k));
        }
    }
}

/// The stage of a batch is coherent, and every key of it decodes.
pub proof fn lemma_staged_coherent(quads: Seq<Quad>)
    ensures
        coherent(staged(quads)),
        stage_decodes(staged(quads)),
{
    lemma_empty_coherent();
    lemma_inserts_coherent(empty_db(), quads);
    let v = staged(quads);
    assert(index_coherent(v, QuadEncoding::Dspo));
    assert(index_coherent(v, QuadEncoding::Dpos));
    assert(index_coherent(v, QuadEncoding::Dosp));
    assert forall|k: Seq<u8>| #[trigger] v[ColumnFamily::Dspo].contains_key(k) implies parse_quad(
        QuadEncoding::Dspo,
        k,
    ) is Ok by {
        assert(v[QuadEncoding::Dspo.spec_family()].contains_key(k));
        assert(row_coherent(v, QuadEncoding::Dspo, k));
    }
    assert forall|k: Seq<u8>| #[trigger] v[ColumnFamily::Dpos].contains_key(k) implies parse_quad(
        QuadEncoding::Dpos,
        k,
    ) is Ok by {
        assert(v[QuadEncoding::Dpos.spec_family()].contains_key(k));
        assert(row_coherent(v, QuadEncoding::Dpos, k));
    }
    assert forall|k: Seq<u8>| #[trigger] v[ColumnFamily::Dosp].contains_key(k) implies parse_quad(
        QuadEncoding::Dosp,
        k,
    ) is Ok by {
        assert(v[QuadEncoding::Dosp.spec_family()].contains_key(k));
        assert(row_coherent(v, QuadEncoding::Dosp, k));
    }
}

/// The content of the stage of a batch as it is handed to the store: as
/// staged, or with the interval annotations put in their place.
pub open spec fn batch_stage(
    quads: Seq<Quad>,
    class_tree: MultiTree,
    property_tree: MultiTree,
    placement: Option<IntervalPlacement>,
) -> DbView {
    match placement {
        None => staged(quads),
        Some(placement) => annotated_stage(staged(quads), class_tree, property_tree, placement),
    }
}

/// The content of a store after a list of quads was loaded in batches of
/// a size: the full batches first to last, then what is left, which may
/// be nothing.
pub open spec fn batched(
    v: DbView,
    quads: Seq<Quad>,
    size: int,
    class_tree: MultiTree,
    property_tree: MultiTree,
    placement: Option<IntervalPlacement>,
) -> DbView
    decreases quads.len(),
{
    if size <= 0 || quads.len() < size {
        merged(batch_stage(quads, class_tree, property_tree, placement), v)
    } else {
        batched(
            merged(batch_stage(quads.take(size), class_tree, property_tree, placement), v),
            quads.skip(size),
            size,
            class_tree,
            property_tree,
            placement,
        )
    }
}

/// The counts of loaded quads at which progress is reported when a list
/// of quads is loaded in batches of a size: the count after each batch
/// with which the count passes a multiple of the smallest batch.
pub open spec fn batch_reports(quads: Seq<Quad>, size: int, done: u64) -> Seq<u64>
    decreases quads.len(),
{
    if size <= 0 || quads.len() < size {
        report_after(done, saturating_rows(done, staged_rows(staged(quads))))
    } else {
        let next = saturating_rows(done, staged_rows(staged(quads.take(size))));
        report_after(done, next) + batch_reports(quads.skip(size), size, next)
    }
}

/// The report of progress that is due when the count of loaded quads has
/// gone from `displayed` to `done`.
pub open spec fn report_after(displayed: u64, done: u64) -> Seq<u64> {
    if progress_due(done, displayed) {
        seq![done]
    } else {
        Seq::empty()
    }
}

impl FileBulkLoader {
    /// Puts the interval annotations on the three indexes of the default
    /// graph of the stage, then hands the stage to a store and empties
    /// it. Nothing is handed over if a key of the stage does not decode.
    pub fn save_oxiuse(
        &mut self,
        storage: &mut Storage,
        class_tree: &MultiTree,
        property_tree: &MultiTree,
        placement: IntervalPlacement,
    ) -> (r: Result<(), StorageError>)
        requires
            old(self).wf(),
            old(storage).wf(),
            class_tree.wf(),
            property_tree.wf(),
        ensures
            final(self).wf(),
            final(storage).wf(),
            r is Ok == stage_decodes(old(self)@),
            r is Ok ==> final(storage)@ == merged(
                annotated_stage(old(self)@, *class_tree, *property_tree, placement),
                old(storage)@,
            ) && final(self)@ == empty_db(),
            r is Err ==> final(storage)@ == old(storage)@,
    {
        proof {
            assert(QuadEncoding::Dspo.spec_family() == ColumnFamily::Dspo);
            assert(QuadEncoding::Dpos.spec_family() == ColumnFamily::Dpos);
            assert(QuadEncoding::Dosp.spec_family() == ColumnFamily::Dosp);
        }
        self.annotate(QuadEncoding::Dspo, class_tree, property_tree, placement)?;
        let dpos = self.annotate(QuadEncoding::Dpos, class_tree, property_tree, placement);
        match dpos {
            Ok(()) => {},
            Err(e) => {
                return Err(e);
            },
        }
        let dosp = self.annotate(QuadEncoding::Dosp, class_tree, property_tree, placement);
        match dosp {
            Ok(()) => {},
            Err(e) => {
                return Err(e);
            },
        }
        self.save(storage);
        Ok(())
    }

    /// Hands the stage to a store with the interval annotations as values
    /// of the rows of the default graph.
    pub fn save_oxiuse_value(
        &mut self,
        storage: &mut Storage,
        class_tree: &MultiTree,
        property_tree: &MultiTree,
    ) -> (r: Result<(), StorageError>)
        requires
            old(self).wf(),
            old(storage).wf(),
            class_tree.wf(),
            property_tree.wf(),
        ensures
            final(self).wf(),
            final(storage).wf(),
            r is Ok == stage_decodes(old(self)@),
            r is Ok ==> final(storage)@ == merged(
                annotated_stage(old(self)@, *class_tree, *property_tree, IntervalPlacement::Value),
                old(storage)@,
            ) && final(self)@ == empty_db(),
            r is Err ==> final(storage)@ == old(storage)@,
    {
        self.save_oxiuse(storage, class_tree, property_tree, IntervalPlacement::Value)
    }

    /// Hands the stage to a store with the interval annotations behind
    /// the keys of the rows of the default graph.
    pub fn save_oxiuse_key(
        &mut self,
        storage: &mut Storage,
        class_tree: &MultiTree,
        property_tree: &MultiTree,
    ) -> (r: Result<(), StorageError>)
        requires
            old(self).wf(),
            old(storage).wf(),
            class_tree.wf(),
            property_tree.wf(),
        ensures
            final(self).wf(),
            final(storage).wf(),
            r is Ok == stage_decodes(old(self)@),
            r is Ok ==> final(storage)@ == merged(
                annotated_stage(old(self)@, *class_tree, *property_tree, IntervalPlacement::Key),
                old(storage)@,
            ) && final(self)@ == empty_db(),
            r is Err ==> final(storage)@ == old(storage)@,
    {
        self.save_oxiuse(storage, class_tree, property_tree, IntervalPlacement::Key)
    }

    /// Loads a batch into a store with the interval annotations as values
    /// of the rows of the default graph, and adds the number of its quads
    /// to a counter.
    pub fn load_oxiuse_value(
        &mut self,
        storage: &mut Storage,
        quads: &[Quad],
        counter: &mut u64,
        class_tree: &MultiTree,
        property_tree: &MultiTree,
    ) -> (r: Result<(), StorageError>)
        requires
            old(self).wf(),
            old(self)@ == empty_db(),
            old(storage).wf(),
            class_tree.wf(),
            property_tree.wf(),
        ensures
            final(self).wf(),
            final(storage).wf(),
            r is Ok == stage_decodes(staged(quads@)),
            r is Ok ==> final(self)@ == empty_db() && final(storage)@ == merged(
                annotated_stage(
                    staged(quads@),
                    *class_tree,
                    *property_tree,
                    IntervalPlacement::Value,
                ),
                old(storage)@,
            ) && *final(counter) == saturating_rows(*old(counter), staged_rows(staged(quads@))),
            r is Err ==> final(storage)@ == old(storage)@,
    {
        self.encode(quads);
        let size: usize = self.len();
        self.save_oxiuse_value(storage, class_tree, property_tree)?;
        *counter = counter.saturating_add(size as u64);
        Ok(())
    }

    /// Loads a batch into a store with the interval annotations behind the
    /// keys of the rows of the default graph, and adds the number of its
    /// quads to a counter.
    pub fn load_oxiuse_key(
        &mut self,
        storage: &mut Storage,
        quads: &[Quad],
        counter: &mut u64,
        class_tree: &MultiTree,
        property_tree: &MultiTree,
    ) -> (r: Result<(), StorageError>)
        requires
            old(self).wf(),
            old(self)@ == empty_db(),
            old(storage).wf(),
            class_tree.wf(),
            property_tree.wf(),
        ensures
            final(self).wf(),
            final(storage).wf(),
            r is Ok == stage_decodes(staged(quads@)),
            r is Ok ==> final(self)@ == empty_db() && final(storage)@ == merged(
                annotated_stage(staged(quads@), *class_tree, *property_tree, IntervalPlacement::Key),
                old(storage)@,
            ) && *final(counter) == saturating_rows(*old(counter), staged_rows(staged(quads@))),
            r is Err ==> final(storage)@ == old(storage)@,
    {
        self.encode(quads);
        let size: usize = self.len();
        self.save_oxiuse_key(storage, class_tree, property_tree)?;
        *counter = counter.saturating_add(size as u64);
        Ok(())
    }

    /// Builds and labels the taxonomy of classes and the taxonomy of
    /// properties from the lines of a taxonomy file.
    pub fn construct_tree(lines: &Vec<String>) -> (r: Result<(MultiTree, MultiTree), TaxonomyError>)
        ensures
            r matches Ok((class_tree, property_tree)) ==> class_tree.wf() && property_tree.wf()
                && taxonomy_of(class_tree, OWL_CLASS@, lines_bytes(lines@), TaxonomyKind::Class)
                && taxonomy_of(
                property_tree,
                RDF_PROPERTY@,
                lines_bytes(lines@),
                TaxonomyKind::Property,
            ),
            r is Ok == taxonomies_can_be_labelled(lines@),
    {
        crate::taxonomy_file::construct_tree(lines)
    }
}

/// The bulk loader of a store: it owns the store while it loads, and
/// gives it back when it is done.
pub struct StorageBulkLoader {
    storage: Storage,
    num_threads: Option<usize>,
    max_memory_size: Option<usize>,
}

impl View for StorageBulkLoader {
    type V = DbView;

    closed spec fn view(&self) -> DbView {
        self.storage@
    }
}

impl StorageBulkLoader {
    /// The invariant of a loader: that of its store.
    pub closed spec fn wf(&self) -> bool {
        self.storage.wf()
    }

    /// The number of threads that was asked for.
    pub closed spec fn num_threads(&self) -> Option<usize> {
        self.num_threads
    }

    /// The limit of memory in megabytes that was asked for.
    pub closed spec fn max_memory_size(&self) -> Option<usize> {
        self.max_memory_size
    }

    /// A loader for a store.
    pub fn new(storage: Storage) -> (loader: StorageBulkLoader)
        requires
            storage.wf(),
        ensures
            loader.wf(),
            loader@ == storage@,
            loader.num_threads() is None,
            loader.max_memory_size() is None,
    {
        StorageBulkLoader { storage, num_threads: None, max_memory_size: None }
    }

    /// Asks for a number of threads.
    pub fn set_num_threads(self, num_threads: usize) -> (loader: StorageBulkLoader)
        ensures
            loader.wf() == self.wf(),
            loader@ == self@,
            loader.num_threads() == Some(num_threads),
            loader.max_memory_size() == self.max_memory_size(),
    {
        StorageBulkLoader {
            storage: self.storage,
            num_threads: Some(num_threads),
            max_memory_size: self.max_memory_size,
        }
    }

    /// Asks for a limit of memory, in megabytes.
    pub fn set_max_memory_size_in_megabytes(self, max_memory_size: usize) -> (loader:
        StorageBulkLoader)
        ensures
            loader.wf() == self.wf(),
            loader@ == self@,
            loader.num_threads() == self.num_threads(),
            loader.max_memory_size() == Some(max_memory_size),
    {
        StorageBulkLoader {
            storage: self.storage,
            num_threads: self.num_threads,
            max_memory_size: Some(max_memory_size),
        }
    }

    /// Gives the store back.
    pub fn into_storage(self) -> (storage: Storage)
        ensures
            storage.wf() == self.wf(),
            storage@ == self@,
    {
        self.storage
    }

    /// The store as it is now.
    pub fn storage(&self) -> (storage: &Storage)
        ensures
            storage.wf() == self.wf(),
            storage@ == self@,
    {
        &self.storage
    }

    /// Takes note of the count of loaded quads, and says whether progress
    /// is to be reported: it is when the count has passed a multiple of
    /// the smallest batch since it was last noted.
    pub fn on_possible_progress(done: u64, done_and_displayed: &mut u64) -> (report: Option<u64>)
        ensures
            *final(done_and_displayed) == done,
            report == (if progress_due(done, *old(done_and_displayed)) {
                Some(done)
            } else {
                None
            }),
    {
        let display_step: u64 = DEFAULT_BULK_LOAD_BATCH_SIZE as u64;
        let due = done / display_step > *done_and_displayed / display_step;
        *done_and_displayed = done;
        if due {
            Some(done)
        } else {
            None
        }
    }

    /// The size of the batches of a load on this machine: it follows from
    /// what was asked for, from the number of cores and from the free
    /// memory that the machine reports.
    pub fn machine_batch_size(&self) -> (size: usize)
        ensures
            DEFAULT_BULK_LOAD_BATCH_SIZE <= size <= MAX_BULK_LOAD_BATCH_SIZE,
            exists|cores: Option<usize>, free_memory: u64|
                size == #[trigger] batch_size(
                    self.max_memory_size(),
                    free_memory,
                    thread_count(self.num_threads(), self.max_memory_size(), cores),
                ),
    {
        let system = system_new_all();
        let cores = system_physical_core_count(&system);
        let free_memory = system_free_memory(&system);
        let threads = bulk_load_threads(self.num_threads, self.max_memory_size, cores);
        bulk_load_batch_size(self.max_memory_size, free_memory, threads)
    }

    /// Loads one batch with the interval annotations put in their place, if
    /// there are any, and adds the rows of the batch to the count `done`.
    /// Between two batches a caller can tell of the progress.
    pub fn load_batch(
        &mut self,
        file_loader: &mut FileBulkLoader,
        batch: &[Quad],
        done: &mut u64,
        class_tree: &MultiTree,
        property_tree: &MultiTree,
        placement: Option<IntervalPlacement>,
    ) -> (r: Result<(), StorageError>)
        requires
            old(self).wf(),
            old(file_loader).wf(),
            old(file_loader)@ == empty_db(),
            class_tree.wf(),
            property_tree.wf(),
        ensures
            final(self).wf(),
            final(self).num_threads() == old(self).num_threads(),
            final(self).max_memory_size() == old(self).max_memory_size(),
            final(file_loader).wf(),
            r is Ok,
            r is Ok ==> final(file_loader)@ == empty_db() && final(self)@ == merged(
                batch_stage(batch@, *class_tree, *property_tree, placement),
                old(self)@,
            ) && *final(done) == saturating_rows(*old(done), staged_rows(staged(batch@))),
    {
        proof {
            lemma_staged_coherent(batch@);
        }
        match placement {
            None => {
                file_loader.load(&mut self.storage, batch, done);
                Ok(())
            },
            Some(IntervalPlacement::Value) => file_loader.load_oxiuse_value(
                &mut self.storage,
                batch,
                done,
                class_tree,
                property_tree,
            ),
            Some(IntervalPlacement::Key) => file_loader.load_oxiuse_key(
                &mut self.storage,
                batch,
                done,
                class_tree,
                property_tree,
            ),
        }
    }

    /// Loads quads in batches of a size, first to last, and gives the
    /// counts of loaded quads at which progress is to be reported. Stops
    /// at the first batch that the store refuses, with the batches before
    /// it loaded.
    #[verifier::rlimit(50)]
    pub fn load_batches(
        &mut self,
        quads: &Vec<Quad>,
        size: usize,
        class_tree: &MultiTree,
        property_tree: &MultiTree,
        placement: Option<IntervalPlacement>,
    ) -> (r: Result<Vec<u64>, StorageError>)
        requires
            old(self).wf(),
            size >= 1,
            class_tree.wf(),
            property_tree.wf(),
        ensures
            final(self).wf(),
            final(self).num_threads() == old(self).num_threads(),
            final(self).max_memory_size() == old(self).max_memory_size(),
            r is Ok,
            r matches Ok(reports) ==> final(self)@ == batched(
                old(self)@,
                quads@,
                size as int,
                *class_tree,
                *property_tree,
                placement,
            ) && reports@ == batch_reports(quads@, size as int, 0),
    {
        let n: usize = quads.len();
        let mut start: usize = 0;
        let mut done: u64 = 0;
        let mut displayed: u64 = 0;
        let mut reports: Vec<u64> = Vec::new();
        let mut file_loader = FileBulkLoader::new();
        let ghost v = self@;
        proof {
            assert(quads@.skip(0) =~= quads@);
            assert(reports@ + batch_reports(quads@.skip(0), size as int, 0) =~= batch_reports(
                quads@,
                size as int,
                0,
            ));
        }
        loop
            invariant
                start <= n,
                n == quads@.len(),
                size >= 1,
                self.wf(),
                self.num_threads() == old(self).num_threads(),
                self.max_memory_size() == old(self).max_memory_size(),
                class_tree.wf(),
                property_tree.wf(),
                file_loader.wf(),
                file_loader@ == empty_db(),
                displayed == done,
                batched(v, quads@, size as int, *class_tree, *property_tree, placement) == batched(
                    self@,
                    quads@.skip(start as int),
                    size as int,
                    *class_tree,
                    *property_tree,
                    placement,
                ),
                batch_reports(quads@, size as int, 0) == reports@ + batch_reports(
                    quads@.skip(start as int),
                    size as int,
                    done,
                ),
                v == old(self)@,
            decreases n - start,
        {
            let full: bool = n - start >= size;
            let end: usize = if full {
                start + size
            } else {
                n
            };
            let batch = vstd::slice::slice_subrange(quads.as_slice(), start, end);
            let ghost rest = quads@.skip(start as int);
            let ghost done0 = done;
            let ghost reported = reports@;
            let ghost before = self@;
            proof {
                lemma_batch_of(quads@, start as int, end as int, size as int);
            }
            self.load_batch(&mut file_loader, batch, &mut done, class_tree, property_tree, placement)?;
            match StorageBulkLoader::on_possible_progress(done, &mut displayed) {
                Some(count) => {
                    reports.push(count);
                },
                None => {},
            }
            proof {
                assert(reports@ =~= reported + report_after(done0, done));
                lemma_batch_step(
                    before,
                    rest,
                    size as int,
                    *class_tree,
                    *property_tree,
                    placement,
                    done0,
                    reported,
                );
            }
            if !full {
                return Ok(reports);
            }
            start = end;
        }
    }
}

/// The next batch of a list of quads, and what is left behind it.
proof fn lemma_batch_of(quads: Seq<Quad>, start: int, end: int, size: int)
    requires
        0 <= start <= quads.len(),
        size >= 1,
        end == (if quads.len() - start >= size {
            start + size
        } else {
            quads.len() as int
        }),
    ensures
        quads.subrange(start, end) == (if quads.len() - start >= size {
            quads.skip(start).take(size)
        } else {
            quads.skip(start)
        }),
        quads.len() - start >= size ==> quads.skip(start).skip(size) == quads.skip(end),
{
    let rest = quads.skip(start);
    let batch = quads.subrange(start, end);
    if quads.len() - start >= size {
        assert(batch =~= rest.take(size));
        assert(rest.skip(size) =~= quads.skip(end));
    } else {
        assert(batch =~= rest);
    }
}

/// What is loaded and reported for a list of quads is what is loaded and
/// reported for its first batch, and then for what is left.
proof fn lemma_batch_step(
    v: DbView,
    rest: Seq<Quad>,
    size: int,
    class_tree: MultiTree,
    property_tree: MultiTree,
    placement: Option<IntervalPlacement>,
    done: u64,
    reported: Seq<u64>,
)
    requires
        size >= 1,
    ensures
        rest.len() >= size ==> batched(v, rest, size, class_tree, property_tree, placement)
            == batched(
            merged(batch_stage(rest.take(size), class_tree, property_tree, placement), v),
            rest.skip(size),
            size,
            class_tree,
            property_tree,
            placement,
        ) && reported + batch_reports(rest, size, done) == reported + report_after(
            done,
            saturating_rows(done, staged_rows(staged(rest.take(size)))),
        ) + batch_reports(
            rest.skip(size),
            size,
            saturating_rows(done, staged_rows(staged(rest.take(size)))),
        ),
        rest.len() < size ==> batched(v, rest, size, class_tree, property_tree, placement) == merged(
            batch_stage(rest, class_tree, property_tree, placement),
            v,
        ) && reported + batch_reports(rest, size, done) == reported + report_after(
            done,
            saturating_rows(done, staged_rows(staged(rest))),
        ),
{
    if rest.len() >= size {
        let next = saturating_rows(done, staged_rows(staged(rest.take(size))));
        assert(reported + (report_after(done, next) + batch_reports(rest.skip(size), size, next))
            =~= reported + report_after(done, next) + batch_reports(rest.skip(size), size, next));
    }
}

/// Whether the taxonomies are those that the lines of a taxonomy file
/// make.
pub open spec fn taxonomies_of(class_tree: MultiTree, property_tree: MultiTree, lines: Seq<String>) -> bool {
    &&& class_tree.wf()
    &&& property_tree.wf()
    &&& taxonomy_of(class_tree, OWL_CLASS@, lines_bytes(lines), TaxonomyKind::Class)
    &&& taxonomy_of(property_tree, RDF_PROPERTY@, lines_bytes(lines), TaxonomyKind::Property)
}

/// Whether the two taxonomies that the lines of a taxonomy file make can
/// be labelled.
pub open spec fn taxonomies_can_be_labelled(lines: Seq<String>) -> bool {
    file_can_be_labelled(OWL_CLASS@, lines_bytes(lines), TaxonomyKind::Class)
        && file_can_be_labelled(RDF_PROPERTY@, lines_bytes(lines), TaxonomyKind::Property)
}

/// Whether a content is what a load with interval annotations makes of a
/// content, whatever the size of the batches is that the machine allows.
pub open spec fn annotated_load(
    before: DbView,
    after: DbView,
    quads: Seq<Quad>,
    lines: Seq<String>,
    placement: IntervalPlacement,
) -> bool {
    exists|class_tree: MultiTree, property_tree: MultiTree, size: int|
        taxonomies_of(class_tree, property_tree, lines) && DEFAULT_BULK_LOAD_BATCH_SIZE <= size
            <= MAX_BULK_LOAD_BATCH_SIZE && after == #[trigger] batched(
            before,
            quads,
            size,
            class_tree,
            property_tree,
            Some(placement),
        )
}

impl StorageBulkLoader {
    /// Loads quads into the store, in batches whose size the machine
    /// allows, and gives the counts of loaded quads at which progress is
    /// to be reported.
    pub fn load(&mut self, quads: &Vec<Quad>) -> (r: Result<Vec<u64>, StorageError>)
        requires
            old(self).wf(),
        ensures
            final(self).wf(),
            r matches Ok(reports) && exists|size: int|
                DEFAULT_BULK_LOAD_BATCH_SIZE <= size <= MAX_BULK_LOAD_BATCH_SIZE && final(self)@
                    == #[trigger] plain_batched(old(self)@, quads@, size) && reports@
                    == batch_reports(quads@, size, 0),
            crate::laws::sound(old(self)@) ==> final(self)@ == inserts_effect(
                old(self)@,
                quads@,
            ) && crate::laws::sound(final(self)@),
    {
        let size = self.machine_batch_size();
        let class_tree = MultiTree::new(OWL_CLASS);
        let property_tree = MultiTree::new(RDF_PROPERTY);
        let r = self.load_batches(quads, size, &class_tree, &property_tree, None);
        proof {
            lemma_plain_batched(old(self)@, quads@, size as int, class_tree, property_tree);
            assert(self@ == plain_batched(old(self)@, quads@, size as int));
            if crate::laws::sound(old(self)@) {
                crate::laws::lemma_bulk_load_is_inserts(old(self)@, quads@, size as int);
                crate::laws::lemma_inserts_sound(old(self)@, quads@);
            }
        }
        r
    }

    /// Loads quads into the store with the interval annotations of the
    /// taxonomies of a taxonomy file as values of the rows of the default
    /// graph.
    pub fn load_oxiuse_value(&mut self, quads: &Vec<Quad>, lines: &Vec<String>) -> (r: Result<
        Vec<u64>,
        LoaderError,
    >)
        requires
            old(self).wf(),
        ensures
            final(self).wf(),
            r is Ok ==> annotated_load(
                old(self)@,
                final(self)@,
                quads@,
                lines@,
                IntervalPlacement::Value,
            ),
            r matches Err(LoaderError::Taxonomy(_)) ==> final(self)@ == old(self)@,
            !(r matches Err(LoaderError::Storage(_))),
            (r matches Err(LoaderError::Taxonomy(_))) == !taxonomies_can_be_labelled(lines@),
    {
        self.load_oxiuse(quads, lines, IntervalPlacement::Value)
    }

    /// Loads quads into the store with the interval annotations of the
    /// taxonomies of a taxonomy file behind the keys of the rows of the
    /// default graph.
    pub fn load_oxiuse_key(&mut self, quads: &Vec<Quad>, lines: &Vec<String>) -> (r: Result<
        Vec<u64>,
        LoaderError,
    >)
        requires
            old(self).wf(),
        ensures
            final(self).wf(),
            r is Ok ==> annotated_load(
                old(self)@,
                final(self)@,
                quads@,
                lines@,
                IntervalPlacement::Key,
            ),
            r matches Err(LoaderError::Taxonomy(_)) ==> final(self)@ == old(self)@,
            !(r matches Err(LoaderError::Storage(_))),
            (r matches Err(LoaderError::Taxonomy(_))) == !taxonomies_can_be_labelled(lines@),
    {
        self.load_oxiuse(quads, lines, IntervalPlacement::Key)
    }

    /// Loads quads into the store with the interval annotations of the
    /// taxonomies of a taxonomy file put in their place.
    fn load_oxiuse(&mut self, quads: &Vec<Quad>, lines: &Vec<String>, placement: IntervalPlacement) -> (r:
        Result<Vec<u64>, LoaderError>)
        requires
            old(self).wf(),
        ensures
            final(self).wf(),
            r is Ok ==> annotated_load(old(self)@, final(self)@, quads@, lines@, placement),
            r matches Err(LoaderError::Taxonomy(_)) ==> final(self)@ == old(self)@,
            !(r matches Err(LoaderError::Storage(_))),
            (r matches Err(LoaderError::Taxonomy(_))) == !taxonomies_can_be_labelled(lines@),
    {
        let (class_tree, property_tree) = match FileBulkLoader::construct_tree(lines) {
            Ok(trees) => trees,
            Err(e) => {
                return Err(LoaderError::Taxonomy(e));
            },
        };
        let size = self.machine_batch_size();
        match self.load_batches(quads, size, &class_tree, &property_tree, Some(placement)) {
            Ok(reports) => {
                proof {
                    assert(taxonomies_of(class_tree, property_tree, lines@));
                    assert(self@ == batched(
                        old(self)@,
                        quads@,
                        size as int,
                        class_tree,
                        property_tree,
                        Some(placement),
                    ));
                }
                Ok(reports)
            },
            Err(e) => Err(LoaderError::Storage(e)),
        }
    }
}

/// The content of a store after a list of quads was loaded in batches of
/// a size, without interval annotations.
pub open spec fn plain_batched(v: DbView, quads: Seq<Quad>, size: int) -> DbView
    decreases quads.len(),
{
    if size <= 0 || quads.len() < size {
        merged(staged(quads), v)
    } else {
        plain_batched(merged(staged(quads.take(size)), v), quads.skip(size), size)
    }
}

/// A load without interval annotations does not look at the taxonomies.
pub proof fn lemma_plain_batched(
    v: DbView,
    quads: Seq<Quad>,
    size: int,
    class_tree: MultiTree,
    property_tree: MultiTree,
)
    ensures
        batched(v, quads, size, class_tree, property_tree, None) == plain_batched(v, quads, size),
    decreases quads.len(),
{
    if !(size <= 0 || quads.len() < size) {
        lemma_plain_batched(
            merged(staged(quads.take(size)), v),
            quads.skip(size),
            size,
            class_tree,
            property_tree,
        );
    }
}

} // verus!
