//! The store: the database of the twelve column families, its version
//! record, and read access to a snapshot of it.

use vstd::prelude::*;
use vstd::utf8::encode_utf8;
use vstd::utf8::valid_utf8;
use crate::backend::byte_strings;
use crate::backend::column_family_at;
use crate::backend::COLUMN_FAMILY_COUNT;
use crate::backend::copy_bytes;
use crate::backend::counted;
use crate::backend::empty_db;
use crate::backend::lemma_lex_irreflexive;
use crate::backend::lemma_lex_transitive;
use crate::backend::lex_lt;
use crate::backend::scan_result;
use crate::backend::ColumnFamily;
use crate::backend::ColumnFamilyDefinition;
use crate::backend::Db;
use crate::backend::DbView;
use crate::backend::SstFile;
use crate::backend::Table;
use crate::binary_encoder::decode_term;
use crate::binary_encoder::encode_term;
use crate::binary_encoder::encode_term_pair;
use crate::binary_encoder::encode_term_quad;
use crate::binary_encoder::encode_term_triple;
use crate::binary_encoder::parse_term;
use crate::binary_encoder::term_error;
use crate::binary_encoder::term_read_result;
use crate::binary_encoder::parse_quad;
use crate::binary_encoder::quad_key;
use crate::binary_encoder::quad_read_result;
use crate::binary_encoder::term_bytes;
use crate::binary_encoder::lemma_parsed_quad_wf;
use crate::binary_encoder::write_gosp_quad;
use crate::binary_encoder::write_gpos_quad;
use crate::binary_encoder::write_gspo_quad;
use crate::binary_encoder::write_osp_quad;
use crate::binary_encoder::write_ospg_quad;
use crate::binary_encoder::write_pos_quad;
use crate::binary_encoder::write_posg_quad;
use crate::binary_encoder::write_spog_quad;
use crate::binary_encoder::write_spo_quad;
use crate::binary_encoder::QuadEncoding;
use crate::binary_encoder::LATEST_STORAGE_VERSION;
use crate::endian::read_u64;
use crate::endian::u128_bytes;
use crate::endian::u64_bytes;
use crate::endian::u64_of;
use crate::endian::write_u128;
use crate::endian::write_u64;
use crate::error::CorruptionError;
use crate::error::StorageError;
use crate::decoder::fails_with;
use crate::decoder::first_fault;
use crate::index::coherent;
use crate::index::index_valid;
use crate::index::row_valid;
use crate::index::counts_agree;
use crate::index::index_coherent;
use crate::index::row_coherent;
use crate::index::key_in;
use crate::index::view_wf;
use crate::numeric_encoder::EncodedQuad;
use crate::numeric_encoder::EncodedTerm;
use crate::numeric_encoder::StrHash;
use crate::text::is_utf8;
use crate::text::string_from_utf8;
use crate::strings::Rows;

verus! {

/// The key of the version record in the default column family.
pub open spec fn version_key() -> Seq<u8> {
    encode_utf8("oxversion"@)
}

/// The definitions of the eleven column families that the store creates
/// beside the default one. Keys that start with a named or blank node
/// share at least their first seventeen bytes in every scan; the indexes
/// that start with the object do not, nor does the string table.
pub open spec fn column_family_definitions() -> Seq<ColumnFamilyDefinition> {
    seq![
        ColumnFamilyDefinition {
            family: ColumnFamily::Id2Str,
            use_iter: false,
            min_prefix_size: 0,
            unordered_writes: true,
        },
        ColumnFamilyDefinition {
            family: ColumnFamily::Spog,
            use_iter: true,
            min_prefix_size: 17,
            unordered_writes: false,
        },
        ColumnFamilyDefinition {
            family: ColumnFamily::Posg,
            use_iter: true,
            min_prefix_size: 17,
            unordered_writes: false,
        },
        ColumnFamilyDefinition {
            family: ColumnFamily::Ospg,
            use_iter: true,
            min_prefix_size: 0,
            unordered_writes: false,
        },
        ColumnFamilyDefinition {
            family: ColumnFamily::Gspo,
            use_iter: true,
            min_prefix_size: 17,
            unordered_writes: false,
        },
        ColumnFamilyDefinition {
            family: ColumnFamily::Gpos,
            use_iter: true,
            min_prefix_size: 17,
            unordered_writes: false,
        },
        ColumnFamilyDefinition {
            family: ColumnFamily::Gosp,
            use_iter: true,
            min_prefix_size: 17,
            unordered_writes: false,
        },
        ColumnFamilyDefinition {
            family: ColumnFamily::Dspo,
            use_iter: true,
            min_prefix_size: 17,
            unordered_writes: false,
        },
        ColumnFamilyDefinition {
            family: ColumnFamily::Dpos,
            use_iter: true,
            min_prefix_size: 17,
            unordered_writes: false,
        },
        ColumnFamilyDefinition {
            family: ColumnFamily::Dosp,
            use_iter: true,
            min_prefix_size: 0,
            unordered_writes: false,
        },
        ColumnFamilyDefinition {
            family: ColumnFamily::Graphs,
            use_iter: true,
            min_prefix_size: 17,
            unordered_writes: false,
        },
    ]
}

/// The content with the version record set to `version`.
pub open spec fn with_version(v: DbView, version: u64) -> DbView {
    v.insert(ColumnFamily::Default, v[ColumnFamily::Default].insert(version_key(), u64_bytes(version)))
}

/// The graph names of the keys of the index `gspo`, each with an empty
/// value, beside the rows that the set of graphs has already.
pub open spec fn graphs_of_quads(v: DbView) -> Rows {
    Map::new(
        |g: Seq<u8>|
            v[ColumnFamily::Graphs].contains_key(g) || exists|k: Seq<u8>| #[trigger]
                v[ColumnFamily::Gspo].contains_key(k) && key_graph(k) == g,
        |g: Seq<u8>|
            if v[ColumnFamily::Graphs].contains_key(g) {
                v[ColumnFamily::Graphs][g]
            } else {
                Seq::<u8>::empty()
            },
    )
}

/// The binary form of the graph name of a key of the index `gspo`.
pub open spec fn key_graph(k: Seq<u8>) -> Seq<u8> {
    term_bytes(parse_quad(QuadEncoding::Gspo, k)->Ok_0.graph_name)
}

/// Whether every key of the two indexes that a full scan reads decodes.
pub open spec fn all_quads_decode(v: DbView) -> bool {
    &&& forall|k: Seq<u8>| #[trigger]
        v[ColumnFamily::Dspo].contains_key(k) ==> parse_quad(QuadEncoding::Dspo, k) is Ok
    &&& forall|k: Seq<u8>| #[trigger]
        v[ColumnFamily::Gspo].contains_key(k) ==> parse_quad(QuadEncoding::Gspo, k) is Ok
}

/// What the version record of a database says: nothing, a version, or
/// that it is no version record.
pub open spec fn stored_version(v: DbView) -> Option<Result<u64, CorruptionError>> {
    if !v[ColumnFamily::Default].contains_key(version_key()) {
        None
    } else if v[ColumnFamily::Default][version_key()].len() != 8 {
        Some(Err(CorruptionError::BadVersionRecord))
    } else {
        Some(Ok(u64_of(v[ColumnFamily::Default][version_key()])))
    }
}

/// The content of a database after it was brought to the current layout.
pub open spec fn migrated(v: DbView) -> DbView {
    match stored_version(v) {
        None => with_version(v, LATEST_STORAGE_VERSION),
        Some(Ok(version)) => if version == 0 {
            with_version(v.insert(ColumnFamily::Graphs, graphs_of_quads(v)), 1)
        } else {
            v
        },
        Some(Err(_)) => v,
    }
}

/// Whether `e` is the error of the first key of an index, in the order
/// of the keys, that does not decode.
pub open spec fn first_undecodable(
    table: Map<Seq<u8>, Seq<u8>>,
    encoding: QuadEncoding,
    e: CorruptionError,
) -> bool {
    exists|k: Seq<u8>| #[trigger]
        table.contains_key(k) && parse_quad(encoding, k) == Err::<EncodedQuad, CorruptionError>(e)
            && forall|other: Seq<u8>| #[trigger]
            table.contains_key(other) && lex_lt(other, k) ==> parse_quad(encoding, other) is Ok
}

/// Whether `e` is the error for which a database of version 0 is not
/// brought to the current layout: that of the first key that does not
/// decode, of the first index of the default graph or, where all its keys
/// decode, of the first index of the named graphs.
pub open spec fn migration_fault(v: DbView, e: CorruptionError) -> bool {
    first_undecodable(v[ColumnFamily::Dspo], QuadEncoding::Dspo, e) || ((forall|k: Seq<u8>| #[trigger]
        v[ColumnFamily::Dspo].contains_key(k) ==> parse_quad(QuadEncoding::Dspo, k) is Ok)
        && first_undecodable(v[ColumnFamily::Gspo], QuadEncoding::Gspo, e))
}

/// The key at which a scan in the order of the keys first fails to
/// decode is the first key of the index that does not decode.
proof fn lemma_first_undecodable(
    table: Map<Seq<u8>, Seq<u8>>,
    encoding: QuadEncoding,
    keys: Seq<Seq<u8>>,
    i: int,
    e: CorruptionError,
)
    requires
        scan_result(table, Seq::<u8>::empty(), keys),
        0 <= i < keys.len(),
        forall|j: int| 0 <= j < i ==> parse_quad(encoding, #[trigger] keys[j]) is Ok,
        parse_quad(encoding, keys[i]) == Err::<EncodedQuad, CorruptionError>(e),
    ensures
        first_undecodable(table, encoding, e),
{
    let k = keys[i];
    assert(keys.contains(k));
    assert(table.contains_key(k));
    assert forall|other: Seq<u8>| #[trigger]
        table.contains_key(other) && lex_lt(other, k) implies parse_quad(encoding, other) is Ok by {
        assert(other.subrange(0, 0) =~= Seq::<u8>::empty());
        assert(keys.contains(other));
        let j = choose|j: int| 0 <= j < keys.len() && keys[j] == other;
        if j == i {
            lemma_lex_irreflexive(k);
        } else if j > i {
            assert(lex_lt(keys[i], keys[j]));
            lemma_lex_transitive(other, k, other);
            lemma_lex_irreflexive(other);
        }
    }
}

/// Why a database cannot be brought to the current layout, if it cannot.
/// For a database of version 0 with a key that does not decode, the
/// reason that is given here stands for the error of that key, which
/// `migration_fault` gives.
pub open spec fn migration_error(v: DbView) -> Option<CorruptionError> {
    match stored_version(v) {
        None => None,
        Some(Err(e)) => Some(e),
        Some(Ok(version)) => if version == 0 {
            if all_quads_decode(v) {
                None
            } else {
                Some(CorruptionError::UnexpectedEnd)
            }
        } else if version == LATEST_STORAGE_VERSION {
            None
        } else {
            Some(CorruptionError::TooRecentVersion(version))
        },
    }
}

/// The content of a store after the rows of a staged content were handed
/// to it as sorted files: every column family but the default one has the
/// staged rows beside its own, and keeps its own row where both have one
/// for a key. So a value that is staged for a key arrives only where the
/// store has no row for the key: a load that puts interval annotations
/// into the values leaves a row that was stored before with the value
/// that it had, also where that value is empty.
pub open spec fn merged(staged: DbView, v: DbView) -> DbView {
    Map::total(
        |cf: ColumnFamily|
            if cf == ColumnFamily::Default {
                v[cf]
            } else {
                staged[cf].union_prefer_right(v[cf])
            },
    )
}

/// The content of a store after the rows of the first column families of
/// a staged content were handed to it.
pub open spec fn merged_up_to(staged: DbView, v: DbView, count: int) -> DbView {
    Map::total(
        |cf: ColumnFamily|
            if 1 <= cf.spec_index() < count {
                staged[cf].union_prefer_right(v[cf])
            } else {
                v[cf]
            },
    )
}

/// What a database holds beside its content after its column family
/// `default` was flushed once more.
pub open spec fn default_flushed(
    upkeep: (Seq<ColumnFamilyDefinition>, Seq<u64>, Seq<u64>),
) -> (Seq<ColumnFamilyDefinition>, Seq<u64>, Seq<u64>) {
    (upkeep.0, upkeep.1.update(0, counted(upkeep.1[0])), upkeep.2)
}

/// Whether bringing a database to the current layout writes a version
/// record: the database has none, or one of version 0.
pub open spec fn version_written(v: DbView) -> bool {
    stored_version(v) is None || stored_version(v) == Some(Ok::<u64, CorruptionError>(0))
}

/// The store.
#[derive(Debug, PartialEq, Eq)]
pub struct Storage {
    db: Db,
}

impl View for Storage {
    type V = DbView;

    closed spec fn view(&self) -> DbView {
        self.db@
    }
}

impl Storage {
    /// The invariant of a store: that of its database.
    pub closed spec fn wf(&self) -> bool {
        self.db.wf()
    }

    /// What the store holds beside its content: the definitions of the
    /// column families that it was made with, and how often each column
    /// family was flushed and compacted, by the place of the family.
    pub closed spec fn upkeep(&self) -> (Seq<ColumnFamilyDefinition>, Seq<u64>, Seq<u64>) {
        (self.db.definitions(), self.db.flushes(), self.db.compactions())
    }

    /// The definitions of the column families that the store was made
    /// with.
    pub open spec fn definitions(&self) -> Seq<ColumnFamilyDefinition> {
        self.upkeep().0
    }

    /// How often a column family was flushed.
    pub open spec fn flushed(&self, cf: ColumnFamily) -> u64 {
        self.upkeep().1[cf.spec_index()]
    }

    /// How often a column family was compacted.
    pub open spec fn compacted(&self, cf: ColumnFamily) -> u64 {
        self.upkeep().2[cf.spec_index()]
    }

    /// The content of a store gives finitely many rows to each column
    /// family.
    pub proof fn lemma_view(&self)
        requires
            self.wf(),
        ensures
            view_wf(self@),
    {
        self.db.lemma_view();
    }

    /// The definitions of the column families of a store.
    pub fn initial_column_families() -> (definitions: Vec<ColumnFamilyDefinition>)
        ensures
            definitions@ == column_family_definitions(),
    {
        let mut definitions: Vec<ColumnFamilyDefinition> = Vec::new();
        definitions.push(
            ColumnFamilyDefinition {
                family: ColumnFamily::Id2Str,
                use_iter: false,
                min_prefix_size: 0,
                unordered_writes: true,
            },
        );
        definitions.push(
            ColumnFamilyDefinition {
                family: ColumnFamily::Spog,
                use_iter: true,
                min_prefix_size: 17,
                unordered_writes: false,
            },
        );
        definitions.push(
            ColumnFamilyDefinition {
                family: ColumnFamily::Posg,
                use_iter: true,
                min_prefix_size: 17,
                unordered_writes: false,
            },
        );
        definitions.push(
            ColumnFamilyDefinition {
                family: ColumnFamily::Ospg,
                use_iter: true,
                min_prefix_size: 0,
                unordered_writes: false,
            },
        );
        definitions.push(
            ColumnFamilyDefinition {
                family: ColumnFamily::Gspo,
                use_iter: true,
                min_prefix_size: 17,
                unordered_writes: false,
            },
        );
        definitions.push(
            ColumnFamilyDefinition {
                family: ColumnFamily::Gpos,
                use_iter: true,
                min_prefix_size: 17,
                unordered_writes: false,
            },
        );
        definitions.push(
            ColumnFamilyDefinition {
                family: ColumnFamily::Gosp,
                use_iter: true,
                min_prefix_size: 17,
                unordered_writes: false,
            },
        );
        definitions.push(
            ColumnFamilyDefinition {
                family: ColumnFamily::Dspo,
                use_iter: true,
                min_prefix_size: 17,
                unordered_writes: false,
            },
        );
        definitions.push(
            ColumnFamilyDefinition {
                family: ColumnFamily::Dpos,
                use_iter: true,
                min_prefix_size: 17,
                unordered_writes: false,
            },
        );
        definitions.push(
            ColumnFamilyDefinition {
                family: ColumnFamily::Dosp,
                use_iter: true,
                min_prefix_size: 0,
                unordered_writes: false,
            },
        );
        definitions.push(
            ColumnFamilyDefinition {
                family: ColumnFamily::Graphs,
                use_iter: true,
                min_prefix_size: 17,
                unordered_writes: false,
            },
        );
        proof {
            assert(definitions@ =~= column_family_definitions());
        }
        definitions
    }

    /// A new, empty store. Its version record says the current version.
    pub fn new() -> (r: Result<Storage, StorageError>)
        ensures
            r matches Ok(s) && s.wf() && s@ == with_version(empty_db(), LATEST_STORAGE_VERSION)
                && coherent(s@) && crate::laws::sound(s@) && s.definitions()
                == column_family_definitions(),
            r matches Ok(s) ==> forall|cf: ColumnFamily|
                s.compacted(cf) == 0 && s.flushed(cf) == (if cf == ColumnFamily::Default {
                    1u64
                } else {
                    0u64
                }),
    {
        let db = Db::new(Storage::initial_column_families());
        proof {
            crate::laws::lemma_new_store_sound();
            db.lemma_counts();
            assert(stored_version(db@) is None);
            assert forall|cf: ColumnFamily|
                db.flushes()[cf.spec_index()] == 0 && db.compactions()[cf.spec_index()] == 0 by {
                assert(db.flushed(cf) == 0 && db.compacted(cf) == 0);
            }
            assert(db.flushes()[0] == 0) by {
                assert(ColumnFamily::Default.spec_index() == 0);
            }
        }
        Storage::setup(db)
    }

    /// The store of an existing database, brought to the current layout.
    pub fn open(db: Db) -> (r: Result<Storage, StorageError>)
        requires
            db.wf(),
        ensures
            match migration_error(db@) {
                None => r matches Ok(s) && s.wf() && s@ == migrated(db@),
                Some(e) => r matches Err(err) && (if stored_version(db@) == Some(
                    Ok::<u64, CorruptionError>(0),
                ) {
                    err matches StorageError::Corruption(k) && term_error(k) && migration_fault(
                        db@,
                        k,
                    )
                } else {
                    err == StorageError::Corruption(e)
                }),
            },
            r matches Ok(s) ==> s.upkeep() == (if version_written(db@) {
                default_flushed((db.definitions(), db.flushes(), db.compactions()))
            } else {
                (db.definitions(), db.flushes(), db.compactions())
            }),
    {
        Storage::setup(db)
    }

    /// Wraps a database and brings it to the current layout.
    fn setup(db: Db) -> (r: Result<Storage, StorageError>)
        requires
            db.wf(),
        ensures
            match migration_error(db@) {
                None => r matches Ok(s) && s.wf() && s@ == migrated(db@),
                Some(e) => r matches Err(err) && (if stored_version(db@) == Some(
                    Ok::<u64, CorruptionError>(0),
                ) {
                    err matches StorageError::Corruption(k) && term_error(k) && migration_fault(
                        db@,
                        k,
                    )
                } else {
                    err == StorageError::Corruption(e)
                }),
            },
            r matches Ok(s) ==> s.upkeep() == (if version_written(db@) {
                default_flushed((db.definitions(), db.flushes(), db.compactions()))
            } else {
                (db.definitions(), db.flushes(), db.compactions())
            }),
    {
        let mut this = Storage { db };
        this.migrate()?;
        Ok(this)
    }

    /// Brings the database to the current layout: a database without
    /// version record gets one; one of version 0 gets its set of graphs
    /// filled from the graph names of its quads; one of a later version
    /// than the current one is refused.
#[verifier::rlimit(30)]
    fn migrate(&mut self) -> (r: Result<(), StorageError>)
        requires
            old(self).wf(),
        ensures
            final(self).wf(),
            match migration_error(old(self)@) {
                None => r is Ok && final(self)@ == migrated(old(self)@),
                Some(e) => r matches Err(err) && (if stored_version(old(self)@) == Some(
                    Ok::<u64, CorruptionError>(0),
                ) {
                    err matches StorageError::Corruption(k) && term_error(k) && migration_fault(
                        old(self)@,
                        k,
                    )
                } else {
                    err == StorageError::Corruption(e)
                }),
            },
            r is Err ==> final(self)@ == old(self)@,
            final(self).upkeep() == (if r is Ok && version_written(old(self)@) {
                default_flushed(old(self).upkeep())
            } else {
                old(self).upkeep()
            }),
    {
        let mut version: u64 = self.ensure_version()?;
        if version == 0 {
            let ghost start = self@;
            let mut graph_names = Table::new();
            let keys = self.db.iter(ColumnFamily::Dspo);
            let mut i: usize = 0;
            while i < keys.len()
                invariant
                    i <= keys@.len(),
                    self.wf(),
                    self@ == start,
                    start == old(self)@,
                    self.upkeep() == old(self).upkeep(),
                    scan_result(start[ColumnFamily::Dspo], Seq::<u8>::empty(), byte_strings(keys@)),
                    forall|j: int|
                        0 <= j < i ==> parse_quad(QuadEncoding::Dspo, #[trigger] keys@[j]@) is Ok,
                    stored_version(start) == Some(Ok::<u64, CorruptionError>(0)),
                decreases keys@.len() - i,
            {
                proof {
                    assert(byte_strings(keys@)[i as int] == keys@[i as int]@);
                    assert(byte_strings(keys@).contains(keys@[i as int]@));
                    assert(start[ColumnFamily::Dspo].contains_key(keys@[i as int]@));
                    crate::binary_encoder::lemma_parse_quad_error(
                        QuadEncoding::Dspo,
                        keys@[i as int]@,
                    );
                }
                match QuadEncoding::Dspo.decode(keys[i].as_slice()) {
                    Ok(_) => {},
                    Err(e) => {
                        proof {
                            let fault = parse_quad(QuadEncoding::Dspo, keys@[i as int]@)->Err_0;
                            assert forall|j: int| 0 <= j < i implies parse_quad(
                                QuadEncoding::Dspo,
                                #[trigger] byte_strings(keys@)[j],
                            ) is Ok by {
                                assert(byte_strings(keys@)[j] == keys@[j]@);
                            }
                            lemma_first_undecodable(
                                start[ColumnFamily::Dspo],
                                QuadEncoding::Dspo,
                                byte_strings(keys@),
                                i as int,
                                fault,
                            );
                        }
                        return Err(e);
                    },
                }
                i = i + 1;
            }
            proof {
                assert forall|k: Seq<u8>| #[trigger]
                    start[ColumnFamily::Dspo].contains_key(k) implies parse_quad(
                    QuadEncoding::Dspo,
                    k,
                ) is Ok by {
                    assert(k.subrange(0, 0) =~= Seq::<u8>::empty());
                    assert(byte_strings(keys@).contains(k));
                    let j = choose|j: int|
                        0 <= j < byte_strings(keys@).len() && byte_strings(keys@)[j] == k;
                    assert(keys@[j]@ == k);
                }
            }
            let keys = self.db.iter(ColumnFamily::Gspo);
            let mut i: usize = 0;
            while i < keys.len()
                invariant
                    i <= keys@.len(),
                    self.wf(),
                    self@ == start,
                    start == old(self)@,
                    self.upkeep() == old(self).upkeep(),
                    graph_names.wf(),
                    scan_result(start[ColumnFamily::Gspo], Seq::<u8>::empty(), byte_strings(keys@)),
                    forall|j: int|
                        0 <= j < i ==> parse_quad(QuadEncoding::Gspo, #[trigger] keys@[j]@) is Ok,
                    forall|g: Seq<u8>|
                        graph_names@.contains_key(g) <==> exists|j: int|
                            0 <= j < i && key_graph(#[trigger] keys@[j]@) == g,
                    forall|g: Seq<u8>| #[trigger]
                        graph_names@.contains_key(g) ==> graph_names@[g] == Seq::<u8>::empty(),
                    forall|k: Seq<u8>| #[trigger]
                        start[ColumnFamily::Dspo].contains_key(k) ==> parse_quad(
                            QuadEncoding::Dspo,
                            k,
                        ) is Ok,
                    stored_version(start) == Some(Ok::<u64, CorruptionError>(0)),
                decreases keys@.len() - i,
            {
                proof {
                    assert(byte_strings(keys@)[i as int] == keys@[i as int]@);
                    assert(byte_strings(keys@).contains(keys@[i as int]@));
                    assert(start[ColumnFamily::Gspo].contains_key(keys@[i as int]@));
                    crate::binary_encoder::lemma_parse_quad_error(
                        QuadEncoding::Gspo,
                        keys@[i as int]@,
                    );
                }
                let quad = match QuadEncoding::Gspo.decode(keys[i].as_slice()) {
                    Ok(quad) => quad,
                    Err(e) => {
                        proof {
                            let fault = parse_quad(QuadEncoding::Gspo, keys@[i as int]@)->Err_0;
                            assert forall|j: int| 0 <= j < i implies parse_quad(
                                QuadEncoding::Gspo,
                                #[trigger] byte_strings(keys@)[j],
                            ) is Ok by {
                                assert(byte_strings(keys@)[j] == keys@[j]@);
                            }
                            lemma_first_undecodable(
                                start[ColumnFamily::Gspo],
                                QuadEncoding::Gspo,
                                byte_strings(keys@),
                                i as int,
                                fault,
                            );
                        }
                        return Err(e);
                    },
                };
                let name = encode_term(&quad.graph_name);
                let ghost before = graph_names@;
                graph_names.insert_empty(name.as_slice());
                proof {
                    assert(key_graph(keys@[i as int]@) == name@);
                    assert forall|g: Seq<u8>| graph_names@.contains_key(g) <==> exists|j: int|
                        0 <= j < i + 1 && key_graph(#[trigger] keys@[j]@) == g by {
                        if graph_names@.contains_key(g) {
                            if g != name@ {
                                assert(before.contains_key(g));
                                let j = choose|j: int|
                                    0 <= j < i && key_graph(#[trigger] keys@[j]@) == g;
                                assert(0 <= j < i + 1 && key_graph(keys@[j]@) == g);
                            }
                        }
                        if exists|j: int| 0 <= j < i + 1 && key_graph(#[trigger] keys@[j]@) == g {
                            let j = choose|j: int|
                                0 <= j < i + 1 && key_graph(#[trigger] keys@[j]@) == g;
                            if j < i {
                                assert(before.contains_key(g));
                            }
                        }
                    }
                }
                i = i + 1;
            }
            let file = sst_of_table(&graph_names);
            self.db.insert_sst_file(ColumnFamily::Graphs, &file);
            proof {
                assert forall|k: Seq<u8>| #[trigger]
                    start[ColumnFamily::Gspo].contains_key(k) implies parse_quad(
                    QuadEncoding::Gspo,
                    k,
                ) is Ok by {
                    assert(k.subrange(0, 0) =~= Seq::<u8>::empty());
                    assert(byte_strings(keys@).contains(k));
                    let j = choose|j: int|
                        0 <= j < byte_strings(keys@).len() && byte_strings(keys@)[j] == k;
                    assert(keys@[j]@ == k);
                }
                assert(all_quads_decode(start));
                let merged = file@.union_prefer_right(start[ColumnFamily::Graphs]);
                assert forall|g: Seq<u8>| merged.contains_key(g) == graphs_of_quads(
                    start,
                ).contains_key(g) by {
                    if file@.contains_key(g) {
                        let j = choose|j: int|
                            0 <= j < keys@.len() && key_graph(#[trigger] keys@[j]@) == g;
                        assert(byte_strings(keys@)[j] == keys@[j]@);
                        assert(byte_strings(keys@).contains(keys@[j]@));
                        assert(start[ColumnFamily::Gspo].contains_key(keys@[j]@));
                    }
                    if exists|k: Seq<u8>| #[trigger]
                        start[ColumnFamily::Gspo].contains_key(k) && key_graph(k) == g {
                        let k = choose|k: Seq<u8>| #[trigger]
                            start[ColumnFamily::Gspo].contains_key(k) && key_graph(k) == g;
                        assert(k.subrange(0, 0) =~= Seq::<u8>::empty());
                        assert(byte_strings(keys@).contains(k));
                        let j = choose|j: int|
                            0 <= j < byte_strings(keys@).len() && byte_strings(keys@)[j] == k;
                        assert(keys@[j]@ == k);
                    }
                }
                assert(merged =~= graphs_of_quads(start));
            }
            version = 1;
            self.update_version(version);
            proof {
                assert(self@ =~= migrated(old(self)@));
            }
        }
        if version == LATEST_STORAGE_VERSION {
            Ok(())
        } else {
            Err(StorageError::Corruption(CorruptionError::TooRecentVersion(version)))
        }
    }

    /// The version that the version record says. A database without
    /// version record gets one that says the current version.
    fn ensure_version(&mut self) -> (r: Result<u64, StorageError>)
        requires
            old(self).wf(),
        ensures
            final(self).wf(),
            match stored_version(old(self)@) {
                None => r == Ok::<u64, StorageError>(LATEST_STORAGE_VERSION) && final(self)@
                    == with_version(old(self)@, LATEST_STORAGE_VERSION),
                Some(Ok(version)) => r == Ok::<u64, StorageError>(version) && final(self)@ == old(
                    self,
                )@,
                Some(Err(e)) => r == Err::<u64, _>(StorageError::Corruption(e)) && final(self)@
                    == old(self)@,
            },
            final(self).upkeep() == (if stored_version(old(self)@) is None {
                default_flushed(old(self).upkeep())
            } else {
                old(self).upkeep()
            }),
    {
        let key = "oxversion".as_bytes();
        match self.db.get(ColumnFamily::Default, key) {
            Some(version) => {
                if version.len() != 8 {
                    return Err(StorageError::Corruption(CorruptionError::BadVersionRecord));
                }
                proof {
                    assert(version@.subrange(0, 8) =~= version@);
                }
                Ok(read_u64(version.as_slice(), 0))
            },
            None => {
                self.update_version(LATEST_STORAGE_VERSION);
                Ok(LATEST_STORAGE_VERSION)
            },
        }
    }

    /// Sets the version record.
    fn update_version(&mut self, version: u64)
        requires
            old(self).wf(),
        ensures
            final(self).wf(),
            final(self)@ == with_version(old(self)@, version),
            final(self).upkeep() == default_flushed(old(self).upkeep()),
    {
        let mut value: Vec<u8> = Vec::new();
        write_u64(&mut value, version);
        proof {
            assert(value@ =~= u64_bytes(version));
        }
        self.db.insert(ColumnFamily::Default, "oxversion".as_bytes(), value.as_slice());
        let flushed = self.db.flush(ColumnFamily::Default);
    }

    /// A read-only view of the store as it is now.
    pub fn snapshot(&self) -> (reader: StorageReader)
        requires
            self.wf(),
        ensures
            reader.wf(),
            reader@ == self@,
    {
        StorageReader { db: self.db.snapshot() }
    }

    /// How often a column family was flushed.
    pub fn flush_count(&self, cf: ColumnFamily) -> (n: u64)
        requires
            self.wf(),
        ensures
            n == self.flushed(cf),
    {
        self.db.flush_count(cf)
    }

    /// How often a column family was compacted.
    pub fn compaction_count(&self, cf: ColumnFamily) -> (n: u64)
        requires
            self.wf(),
        ensures
            n == self.compacted(cf),
    {
        self.db.compaction_count(cf)
    }

    /// Flushes every column family, in the order of their places in the
    /// database. The content stays as it is. An error of the engine ends
    /// the walk and is handed on.
    pub fn flush(&mut self) -> (r: Result<(), StorageError>)
        requires
            old(self).wf(),
        ensures
            final(self).wf(),
            r is Ok,
            final(self)@ == old(self)@,
            final(self).definitions() == old(self).definitions(),
            forall|cf: ColumnFamily| final(self).flushed(cf) == counted(old(self).flushed(cf)),
            forall|cf: ColumnFamily| final(self).compacted(cf) == old(self).compacted(cf),
    {
        let mut i: usize = 0;
        proof {
            self.db.lemma_counts();
        }
        while i < COLUMN_FAMILY_COUNT
            invariant
                i <= COLUMN_FAMILY_COUNT,
                self.db.wf(),
                self.db@ == old(self).db@,
                self.db.definitions() == old(self).db.definitions(),
                self.db.compactions() == old(self).db.compactions(),
                self.db.flushes().len() == COLUMN_FAMILY_COUNT,
                old(self).db.flushes().len() == COLUMN_FAMILY_COUNT,
                forall|j: int|
                    0 <= j < COLUMN_FAMILY_COUNT ==> #[trigger] self.db.flushes()[j] == (if j < i {
                        counted(old(self).db.flushes()[j])
                    } else {
                        old(self).db.flushes()[j]
                    }),
            decreases COLUMN_FAMILY_COUNT - i,
        {
            match self.db.flush(column_family_at(i)) {
                Ok(()) => {},
                Err(e) => {
                    return Err(e);
                },
            }
            i = i + 1;
        }
        Ok(())
    }

    /// Compacts every column family, in the order of their places in the
    /// database. The content stays as it is. An error of the engine ends
    /// the walk and is handed on.
    pub fn compact(&mut self) -> (r: Result<(), StorageError>)
        requires
            old(self).wf(),
        ensures
            final(self).wf(),
            r is Ok,
            final(self)@ == old(self)@,
            final(self).definitions() == old(self).definitions(),
            forall|cf: ColumnFamily| final(self).compacted(cf) == counted(old(self).compacted(cf)),
            forall|cf: ColumnFamily| final(self).flushed(cf) == old(self).flushed(cf),
    {
        let mut i: usize = 0;
        proof {
            self.db.lemma_counts();
        }
        while i < COLUMN_FAMILY_COUNT
            invariant
                i <= COLUMN_FAMILY_COUNT,
                self.db.wf(),
                self.db@ == old(self).db@,
                self.db.definitions() == old(self).db.definitions(),
                self.db.flushes() == old(self).db.flushes(),
                self.db.compactions().len() == COLUMN_FAMILY_COUNT,
                old(self).db.compactions().len() == COLUMN_FAMILY_COUNT,
                forall|j: int|
                    0 <= j < COLUMN_FAMILY_COUNT ==> #[trigger] self.db.compactions()[j] == (if j
                        < i {
                        counted(old(self).db.compactions()[j])
                    } else {
                        old(self).db.compactions()[j]
                    }),
            decreases COLUMN_FAMILY_COUNT - i,
        {
            match self.db.compact(column_family_at(i)) {
                Ok(()) => {},
                Err(e) => {
                    return Err(e);
                },
            }
            i = i + 1;
        }
        Ok(())
    }

    /// The store of a database that is taken as it is.
    pub(crate) fn open_unchecked(db: Db) -> (storage: Storage)
        requires
            db.wf(),
        ensures
            storage.wf(),
            storage@ == db@,
            storage.upkeep() == (db.definitions(), db.flushes(), db.compactions()),
    {
        Storage { db }
    }

    /// Hands the rows of a staged database to the store as sorted files,
    /// one for each column family but the default one. A row whose key the
    /// store holds already is left as it is.
    pub fn ingest(&mut self, staging: &Db)
        requires
            old(self).wf(),
            staging.wf(),
        ensures
            final(self).wf(),
            final(self)@ == merged(staging@, old(self)@),
            final(self).upkeep() == old(self).upkeep(),
    {
        let ghost v = self@;
        let mut i: usize = 1;
        proof {
            self.db.lemma_view();
            assert(self@ =~= merged_up_to(staging@, v, 1));
        }
        while i < COLUMN_FAMILY_COUNT
            invariant
                1 <= i <= COLUMN_FAMILY_COUNT,
                self.wf(),
                staging.wf(),
                self@ == merged_up_to(staging@, v, i as int),
                old(self).db.same_upkeep(&self.db),
            decreases COLUMN_FAMILY_COUNT - i,
        {
            let cf = column_family_at(i);
            let file = sst_of_table(staging.table_ref(cf));
            self.db.insert_sst_file(cf, &file);
            proof {
                assert(self@ =~= merged_up_to(staging@, v, i + 1));
            }
            i = i + 1;
        }
        proof {
            assert(self@ =~= merged(staging@, v));
        }
    }

    /// A copy of the database of the store, to be kept elsewhere.
    pub fn backup(&self) -> (copy: Db)
        requires
            self.wf(),
        ensures
            copy.wf(),
            copy@ == self@,
            (copy.definitions(), copy.flushes(), copy.compactions()) == self.upkeep(),
    {
        self.db.snapshot()
    }
}

/// The sorted file that holds the rows of a table.
pub fn sst_of_table(table: &Table) -> (file: SstFile)
    requires
        table.wf(),
    ensures
        file.wf(),
        file@ == table@,
{
    let keys = table.scan_prefix(Vec::<u8>::new().as_slice());
    let mut file = SstFile::new();
    let mut i: usize = 0;
    let ghost all = byte_strings(keys@);
    while i < keys.len()
        invariant
            i <= keys@.len(),
            table.wf(),
            file.wf(),
            all == byte_strings(keys@),
            scan_result(table@, Seq::<u8>::empty(), all),
            file.keys() == all.subrange(0, i as int),
            forall|k: Seq<u8>| file@.contains_key(k) <==> all.subrange(0, i as int).contains(k),
            forall|k: Seq<u8>| #[trigger] file@.contains_key(k) ==> file@[k] == table@[k],
        decreases keys@.len() - i,
    {
        let ghost k = keys@[i as int]@;
        proof {
            assert(all[i as int] == k);
            assert(all.contains(k));
            if i > 0 {
                assert(file.keys().last() == all[i - 1]);
                assert(crate::backend::lex_lt(all[i - 1], all[i as int]));
            }
            assert(file.accepts(k));
            assert(table@.contains_key(k));
        }
        let value = match table.get(keys[i].as_slice()) {
            Some(v) => copy_bytes(v.as_slice()),
            None => Vec::new(),
        };
        let ghost before = file@;
        let added = file.insert(keys[i].as_slice(), value.as_slice());
        proof {
            let part = all.subrange(0, i as int);
            let next = all.subrange(0, i + 1);
            assert(next =~= part.push(k));
            assert(next[i as int] == k);
            assert(file@ == before.insert(k, value@));
            assert forall|x: Seq<u8>| file@.contains_key(x) <==> next.contains(x) by {
                if next.contains(x) {
                    let j = choose|j: int| 0 <= j < next.len() && next[j] == x;
                    if j < i {
                        assert(part[j] == x);
                    }
                }
                if file@.contains_key(x) && x != k {
                    assert(before.contains_key(x));
                    let j = choose|j: int| 0 <= j < part.len() && part[j] == x;
                    assert(next[j] == x);
                }
            }
        }
        i = i + 1;
    }
    proof {
        assert(all.subrange(0, keys@.len() as int) =~= all);
        assert forall|k: Seq<u8>| file@.contains_key(k) == table@.contains_key(k) by {
            assert(k.subrange(0, 0) =~= Seq::<u8>::empty());
        }
        assert(file@ =~= table@);
    }
    file
}

/// A read-only view of a store at one point in time.
#[derive(Debug, PartialEq, Eq)]
pub struct StorageReader {
    db: Db,
}

impl View for StorageReader {
    type V = DbView;

    closed spec fn view(&self) -> DbView {
        self.db@
    }
}

impl StorageReader {
    /// The invariant of a reader: that of its database.
    pub closed spec fn wf(&self) -> bool {
        self.db.wf()
    }

    /// A reader of a database.
    pub(crate) fn of_db(db: Db) -> (reader: StorageReader)
        requires
            db.wf(),
        ensures
            reader.wf(),
            reader@ == db@,
    {
        StorageReader { db }
    }
}

/// A scan of one index: the order of its keys and the prefix asked for.
pub type IndexScan = (QuadEncoding, Seq<u8>);

/// The binary form of a term of a pattern that is given.
pub open spec fn bound_bytes(t: Option<EncodedTerm>) -> Seq<u8> {
    match t {
        Some(t) => term_bytes(t),
        None => Seq::empty(),
    }
}

/// The scan of the default graph that answers a pattern: the index in
/// whose keys the given terms come first, and those terms as prefix.
pub open spec fn default_scan(
    s: Option<EncodedTerm>,
    p: Option<EncodedTerm>,
    o: Option<EncodedTerm>,
) -> IndexScan {
    if s is Some && o is Some && p is None {
        (QuadEncoding::Dosp, bound_bytes(o) + bound_bytes(s))
    } else if s is Some {
        (QuadEncoding::Dspo, bound_bytes(s) + bound_bytes(p) + bound_bytes(o))
    } else if p is Some {
        (QuadEncoding::Dpos, bound_bytes(p) + bound_bytes(o))
    } else if o is Some {
        (QuadEncoding::Dosp, bound_bytes(o))
    } else {
        (QuadEncoding::Dspo, Seq::empty())
    }
}

/// The scan of the named graphs that answers a pattern without graph.
pub open spec fn any_graph_scan(
    s: Option<EncodedTerm>,
    p: Option<EncodedTerm>,
    o: Option<EncodedTerm>,
) -> IndexScan {
    if s is Some && o is Some && p is None {
        (QuadEncoding::Ospg, bound_bytes(o) + bound_bytes(s))
    } else if s is Some {
        (QuadEncoding::Spog, bound_bytes(s) + bound_bytes(p) + bound_bytes(o))
    } else if p is Some {
        (QuadEncoding::Posg, bound_bytes(p) + bound_bytes(o))
    } else if o is Some {
        (QuadEncoding::Ospg, bound_bytes(o))
    } else {
        (QuadEncoding::Gspo, Seq::empty())
    }
}

/// The scan of one named graph that answers a pattern.
pub open spec fn named_graph_scan(
    s: Option<EncodedTerm>,
    p: Option<EncodedTerm>,
    o: Option<EncodedTerm>,
    g: EncodedTerm,
) -> IndexScan {
    if s is Some && o is Some && p is None {
        (QuadEncoding::Gosp, term_bytes(g) + bound_bytes(o) + bound_bytes(s))
    } else if s is Some {
        (QuadEncoding::Gspo, term_bytes(g) + bound_bytes(s) + bound_bytes(p) + bound_bytes(o))
    } else if p is Some {
        (QuadEncoding::Gpos, term_bytes(g) + bound_bytes(p) + bound_bytes(o))
    } else if o is Some {
        (QuadEncoding::Gosp, term_bytes(g) + bound_bytes(o))
    } else {
        (QuadEncoding::Gspo, term_bytes(g))
    }
}

/// The scans that answer a pattern: one, or two of which the second
/// follows the first.
pub open spec fn pattern_plan(
    s: Option<EncodedTerm>,
    p: Option<EncodedTerm>,
    o: Option<EncodedTerm>,
    g: Option<EncodedTerm>,
) -> (IndexScan, Option<IndexScan>) {
    match g {
        None => (default_scan(s, p, o), Some(any_graph_scan(s, p, o))),
        Some(g) => if g is DefaultGraph {
            (default_scan(s, p, o), None)
        } else {
            (named_graph_scan(s, p, o, g), None)
        },
    }
}

/// The quads of a scan of one index, decoded one after the other.
pub struct DecodingQuadIterator {
    keys: Vec<Vec<u8>>,
    position: usize,
    encoding: QuadEncoding,
}

impl DecodingQuadIterator {
    #[verifier::type_invariant]
    spec fn inv(&self) -> bool {
        self.position <= self.keys@.len()
    }

    /// The keys that are not decoded yet.
    pub closed spec fn remaining(&self) -> Seq<Seq<u8>> {
        byte_strings(self.keys@).skip(self.position as int)
    }

    /// The order of the terms in the keys.
    pub closed spec fn encoding(&self) -> QuadEncoding {
        self.encoding
    }

    /// Whether the iterator is at the start of the scan `scan` of `v`.
    pub open spec fn is_scan_of(&self, v: DbView, scan: IndexScan) -> bool {
        &&& self.encoding() == scan.0
        &&& scan_result(v[scan.0.spec_family()], scan.1, self.remaining())
    }

    /// Decodes the next key. After a key that does not decode the
    /// iterator stays where it is.
    pub fn next(&mut self) -> (r: Option<Result<EncodedQuad, StorageError>>)
        ensures
            final(self).encoding() == old(self).encoding(),
            old(self).remaining().len() == 0 ==> r is None && final(self).remaining() == old(
                self,
            ).remaining(),
            old(self).remaining().len() > 0 ==> (r matches Some(item) && quad_read_result(
                parse_quad(old(self).encoding(), old(self).remaining()[0]),
                item,
            ) && final(self).remaining() == (if item is Ok {
                old(self).remaining().skip(1)
            } else {
                old(self).remaining()
            })),
    {
        proof {
            use_type_invariant(&*self);
        }
        if self.position >= self.keys.len() {
            return None;
        }
        let item = self.encoding.decode(self.keys[self.position].as_slice());
        if item.is_ok() {
            proof {
                assert(byte_strings(self.keys@).skip(self.position as int).skip(1)
                    =~= byte_strings(self.keys@).skip(self.position + 1));
            }
            self.position = self.position + 1;
        }
        Some(item)
    }
}

impl Clone for DecodingQuadIterator {
    fn clone(&self) -> (r: Self)
        ensures
            r.remaining() == self.remaining(),
            r.encoding() == self.encoding(),
    {
        proof {
            use_type_invariant(self);
        }
        let keys = copy_keys(&self.keys);
        proof {
            assert(byte_strings(keys@) =~= byte_strings(self.keys@));
        }
        DecodingQuadIterator { keys, position: self.position, encoding: self.encoding }
    }
}

/// A copy of a list of keys.
pub fn copy_keys(keys: &Vec<Vec<u8>>) -> (copy: Vec<Vec<u8>>)
    ensures
        byte_strings(copy@) == byte_strings(keys@),
        copy@.len() == keys@.len(),
{
    let mut copy: Vec<Vec<u8>> = Vec::new();
    let mut i: usize = 0;
    while i < keys.len()
        invariant
            i <= keys@.len(),
            copy@.len() == i,
            forall|j: int| 0 <= j < i ==> (#[trigger] copy@[j])@ == keys@[j]@,
        decreases keys@.len() - i,
    {
        copy.push(copy_bytes(keys[i].as_slice()));
        i = i + 1;
    }
    proof {
        assert(byte_strings(copy@) =~= byte_strings(keys@));
    }
    copy
}

/// The quads of one scan, or of two scans one after the other.
pub struct ChainedDecodingQuadIterator {
    first: DecodingQuadIterator,
    second: Option<DecodingQuadIterator>,
}

impl ChainedDecodingQuadIterator {
    /// The iterator over one scan.
    fn new(first: DecodingQuadIterator) -> (it: ChainedDecodingQuadIterator)
        ensures
            it.first() == first,
            it.second() is None,
    {
        ChainedDecodingQuadIterator { first, second: None }
    }

    /// The iterator over two scans.
    fn pair(first: DecodingQuadIterator, second: DecodingQuadIterator) -> (it:
        ChainedDecodingQuadIterator)
        ensures
            it.first() == first,
            it.second() == Some(second),
    {
        ChainedDecodingQuadIterator { first, second: Some(second) }
    }

    /// The scan that is read first.
    pub closed spec fn first(&self) -> DecodingQuadIterator {
        self.first
    }

    /// The scan that is read when the first is at its end.
    pub closed spec fn second(&self) -> Option<DecodingQuadIterator> {
        self.second
    }

    /// Whether the iterator is at the start of the scans of a plan.
    pub open spec fn follows(&self, v: DbView, plan: (IndexScan, Option<IndexScan>)) -> bool {
        &&& self.first().is_scan_of(v, plan.0)
        &&& match plan.1 {
            Some(scan) => self.second() matches Some(second) && second.is_scan_of(v, scan),
            None => self.second() is None,
        }
    }

    /// The next quad: that of the first scan while it has keys left, then
    /// that of the second.
    pub fn next(&mut self) -> (r: Option<Result<EncodedQuad, StorageError>>)
        ensures
            old(self).first().remaining().len() > 0 ==> (r matches Some(item) && quad_read_result(
                parse_quad(old(self).first().encoding(), old(self).first().remaining()[0]),
                item,
            ) && final(self).second() == old(self).second() && final(self).first().encoding()
                == old(self).first().encoding() && final(self).first().remaining() == (if item
                is Ok {
                old(self).first().remaining().skip(1)
            } else {
                old(self).first().remaining()
            })),
            old(self).first().remaining().len() == 0 ==> final(self).first().remaining().len() == 0
                && match old(self).second() {
                None => r is None && final(self).second() is None,
                Some(second) => (final(self).second() matches Some(after) && after.encoding()
                    == second.encoding() && (if second.remaining().len() == 0 {
                    r is None && after.remaining() == second.remaining()
                } else {
                    (r matches Some(item) && quad_read_result(
                        parse_quad(second.encoding(), second.remaining()[0]),
                        item,
                    ) && after.remaining() == (if item is Ok {
                        second.remaining().skip(1)
                    } else {
                        second.remaining()
                    }))
                })),
            },
    {
        match self.first.next() {
            Some(item) => Some(item),
            None => match &mut self.second {
                Some(second) => second.next(),
                None => None,
            },
        }
    }
}

/// The graph names of the set of graphs, decoded one after the other.
pub struct DecodingGraphIterator {
    keys: Vec<Vec<u8>>,
    position: usize,
}

impl DecodingGraphIterator {
    #[verifier::type_invariant]
    spec fn inv(&self) -> bool {
        self.position <= self.keys@.len()
    }

    /// The keys that are not decoded yet.
    pub closed spec fn remaining(&self) -> Seq<Seq<u8>> {
        byte_strings(self.keys@).skip(self.position as int)
    }

    /// Decodes the next graph name. After a key that does not decode the
    /// iterator stays where it is.
    pub fn next(&mut self) -> (r: Option<Result<EncodedTerm, StorageError>>)
        ensures
            old(self).remaining().len() == 0 ==> r is None && final(self).remaining() == old(
                self,
            ).remaining(),
            old(self).remaining().len() > 0 ==> (r matches Some(item) && term_read_result(
                parse_term(old(self).remaining()[0]),
                item,
            ) && final(self).remaining() == (if item is Ok {
                old(self).remaining().skip(1)
            } else {
                old(self).remaining()
            })),
    {
        proof {
            use_type_invariant(&*self);
        }
        if self.position >= self.keys.len() {
            return None;
        }
        let item = decode_term(self.keys[self.position].as_slice());
        if item.is_ok() {
            proof {
                assert(byte_strings(self.keys@).skip(self.position as int).skip(1)
                    =~= byte_strings(self.keys@).skip(self.position + 1));
            }
            self.position = self.position + 1;
        }
        Some(item)
    }
}

/// The term behind an optional reference.
pub open spec fn bound_term(t: Option<&EncodedTerm>) -> Option<EncodedTerm> {
    match t {
        Some(t) => Some(*t),
        None => None,
    }
}

/// The sum of two numbers of rows, or the largest number if it does not
/// fit.
pub open spec fn saturating_sum(a: nat, b: nat) -> nat {
    if a + b > usize::MAX {
        usize::MAX as nat
    } else {
        a + b
    }
}

impl StorageReader {
    /// The number of quads: the rows of the index `gspo` and those of the
    /// index `dspo`.
    pub fn len(&self) -> (r: Result<usize, StorageError>)
        requires
            self.wf(),
        ensures
            r matches Ok(n) && n == saturating_sum(
                self@[ColumnFamily::Gspo].len(),
                self@[ColumnFamily::Dspo].len(),
            ),
    {
        let named: usize = self.db.len(ColumnFamily::Gspo);
        let unnamed: usize = self.db.len(ColumnFamily::Dspo);
        Ok(named.saturating_add(unnamed))
    }

    /// Whether the store holds no quad.
    pub fn is_empty(&self) -> (r: Result<bool, StorageError>)
        requires
            self.wf(),
        ensures
            r matches Ok(b) && b == (self@[ColumnFamily::Gspo].len() == 0
                && self@[ColumnFamily::Dspo].len() == 0),
    {
        Ok(self.db.is_empty(ColumnFamily::Gspo) && self.db.is_empty(ColumnFamily::Dspo))
    }

    /// Whether the store holds a quad: whether the index `dspo` holds its
    /// key if it is of the default graph, the index `gspo` otherwise.
    pub fn contains(&self, quad: &EncodedQuad) -> (r: Result<bool, StorageError>)
        requires
            self.wf(),
        ensures
            r matches Ok(b) && b == (if quad.graph_name is DefaultGraph {
                key_in(self@, QuadEncoding::Dspo, *quad)
            } else {
                key_in(self@, QuadEncoding::Gspo, *quad)
            }),
    {
        let mut buffer: Vec<u8> = Vec::new();
        if quad.graph_name.is_default_graph() {
            write_spo_quad(&mut buffer, quad);
            proof {
                assert(buffer@ =~= quad_key(QuadEncoding::Dspo, *quad));
            }
            Ok(self.db.contains_key(ColumnFamily::Dspo, buffer.as_slice()))
        } else {
            write_gspo_quad(&mut buffer, quad);
            proof {
                assert(buffer@ =~= quad_key(QuadEncoding::Gspo, *quad));
            }
            Ok(self.db.contains_key(ColumnFamily::Gspo, buffer.as_slice()))
        }
    }

    /// The quads that match a pattern: the scan of the index in whose keys
    /// the given terms come first, with those terms as prefix. Without a
    /// graph name the scan of the default graph is followed by that of the
    /// named graphs.
    pub fn quads_for_pattern(
        &self,
        subject: Option<&EncodedTerm>,
        predicate: Option<&EncodedTerm>,
        object: Option<&EncodedTerm>,
        graph_name: Option<&EncodedTerm>,
    ) -> (it: ChainedDecodingQuadIterator)
        requires
            self.wf(),
        ensures
            it.follows(
                self@,
                pattern_plan(
                    bound_term(subject),
                    bound_term(predicate),
                    bound_term(object),
                    bound_term(graph_name),
                ),
            ),
    {
        match subject {
            Some(subject) => match predicate {
                Some(predicate) => match object {
                    Some(object) => match graph_name {
                        Some(graph_name) => self.quads_for_subject_predicate_object_graph(
                            subject,
                            predicate,
                            object,
                            graph_name,
                        ),
                        None => self.quads_for_subject_predicate_object(subject, predicate, object),
                    },
                    None => match graph_name {
                        Some(graph_name) => self.quads_for_subject_predicate_graph(
                            subject,
                            predicate,
                            graph_name,
                        ),
                        None => self.quads_for_subject_predicate(subject, predicate),
                    },
                },
                None => match object {
                    Some(object) => match graph_name {
                        Some(graph_name) => self.quads_for_subject_object_graph(
                            subject,
                            object,
                            graph_name,
                        ),
                        None => self.quads_for_subject_object(subject, object),
                    },
                    None => match graph_name {
                        Some(graph_name) => self.quads_for_subject_graph(subject, graph_name),
                        None => self.quads_for_subject(subject),
                    },
                },
            },
            None => match predicate {
                Some(predicate) => match object {
                    Some(object) => match graph_name {
                        Some(graph_name) => self.quads_for_predicate_object_graph(
                            predicate,
                            object,
                            graph_name,
                        ),
                        None => self.quads_for_predicate_object(predicate, object),
                    },
                    None => match graph_name {
                        Some(graph_name) => self.quads_for_predicate_graph(predicate, graph_name),
                        None => self.quads_for_predicate(predicate),
                    },
                },
                None => match object {
                    Some(object) => match graph_name {
                        Some(graph_name) => self.quads_for_object_graph(object, graph_name),
                        None => self.quads_for_object(object),
                    },
                    None => match graph_name {
                        Some(graph_name) => self.quads_for_graph(graph_name),
                        None => self.quads(),
                    },
                },
            },
        }
    }

    /// All quads: those of the default graph, then those of the named
    /// graphs.
    pub fn quads(&self) -> (it: ChainedDecodingQuadIterator)
        requires
            self.wf(),
        ensures
            it.follows(self@, pattern_plan(None, None, None, None)),
    {
        let prefix: Vec<u8> = Vec::new();
        ChainedDecodingQuadIterator::pair(
            self.dspo_quads(prefix.as_slice()),
            self.gspo_quads(prefix.as_slice()),
        )
    }

    /// The quads of every graph with the given subject.
    fn quads_for_subject(&self, subject: &EncodedTerm) -> (it: ChainedDecodingQuadIterator)
        requires
            self.wf(),
        ensures
            it.follows(self@, pattern_plan(Some(*subject), None, None, None)),
    {
        let prefix = encode_term(subject);
        proof {
            assert(prefix@ =~= default_scan(Some(*subject), None, None).1);
            assert(prefix@ =~= any_graph_scan(Some(*subject), None, None).1);
        }
        ChainedDecodingQuadIterator::pair(
            self.dspo_quads(prefix.as_slice()),
            self.spog_quads(prefix.as_slice()),
        )
    }

    /// The quads of every graph with the given subject and predicate.
    fn quads_for_subject_predicate(
        &self,
        subject: &EncodedTerm,
        predicate: &EncodedTerm,
    ) -> (it: ChainedDecodingQuadIterator)
        requires
            self.wf(),
        ensures
            it.follows(self@, pattern_plan(Some(*subject), Some(*predicate), None, None)),
    {
        let prefix = encode_term_pair(subject, predicate);
        proof {
            assert(prefix@ =~= default_scan(Some(*subject), Some(*predicate), None).1);
            assert(prefix@ =~= any_graph_scan(Some(*subject), Some(*predicate), None).1);
        }
        ChainedDecodingQuadIterator::pair(
            self.dspo_quads(prefix.as_slice()),
            self.spog_quads(prefix.as_slice()),
        )
    }

    /// The quads of every graph with the given subject and predicate and object.
    fn quads_for_subject_predicate_object(
        &self,
        subject: &EncodedTerm,
        predicate: &EncodedTerm,
        object: &EncodedTerm,
    ) -> (it: ChainedDecodingQuadIterator)
        requires
            self.wf(),
        ensures
            it.follows(self@, pattern_plan(Some(*subject), Some(*predicate), Some(*object), None)),
    {
        let prefix = encode_term_triple(subject, predicate, object);
        proof {
            assert(prefix@ =~= default_scan(Some(*subject), Some(*predicate), Some(*object)).1);
            assert(prefix@ =~= any_graph_scan(Some(*subject), Some(*predicate), Some(*object)).1);
        }
        ChainedDecodingQuadIterator::pair(
            self.dspo_quads(prefix.as_slice()),
            self.spog_quads(prefix.as_slice()),
        )
    }

    /// The quads of every graph with the given subject and object.
    fn quads_for_subject_object(&self, subject: &EncodedTerm, object: &EncodedTerm) -> (it: ChainedDecodingQuadIterator)
        requires
            self.wf(),
        ensures
            it.follows(self@, pattern_plan(Some(*subject), None, Some(*object), None)),
    {
        let prefix = encode_term_pair(object, subject);
        proof {
            assert(prefix@ =~= default_scan(Some(*subject), None, Some(*object)).1);
            assert(prefix@ =~= any_graph_scan(Some(*subject), None, Some(*object)).1);
        }
        ChainedDecodingQuadIterator::pair(
            self.dosp_quads(prefix.as_slice()),
            self.ospg_quads(prefix.as_slice()),
        )
    }

    /// The quads of every graph with the given predicate.
    fn quads_for_predicate(&self, predicate: &EncodedTerm) -> (it: ChainedDecodingQuadIterator)
        requires
            self.wf(),
        ensures
            it.follows(self@, pattern_plan(None, Some(*predicate), None, None)),
    {
        let prefix = encode_term(predicate);
        proof {
            assert(prefix@ =~= default_scan(None, Some(*predicate), None).1);
            assert(prefix@ =~= any_graph_scan(None, Some(*predicate), None).1);
        }
        ChainedDecodingQuadIterator::pair(
            self.dpos_quads(prefix.as_slice()),
            self.posg_quads(prefix.as_slice()),
        )
    }

    /// The quads of every graph with the given predicate and object.
    fn quads_for_predicate_object(&self, predicate: &EncodedTerm, object: &EncodedTerm) -> (it: ChainedDecodingQuadIterator)
        requires
            self.wf(),
        ensures
            it.follows(self@, pattern_plan(None, Some(*predicate), Some(*object), None)),
    {
        let prefix = encode_term_pair(predicate, object);
        proof {
            assert(prefix@ =~= default_scan(None, Some(*predicate), Some(*object)).1);
            assert(prefix@ =~= any_graph_scan(None, Some(*predicate), Some(*object)).1);
        }
        ChainedDecodingQuadIterator::pair(
            self.dpos_quads(prefix.as_slice()),
            self.posg_quads(prefix.as_slice()),
        )
    }

    /// The quads of every graph with the given object.
    fn quads_for_object(&self, object: &EncodedTerm) -> (it: ChainedDecodingQuadIterator)
        requires
            self.wf(),
        ensures
            it.follows(self@, pattern_plan(None, None, Some(*object), None)),
    {
        let prefix = encode_term(object);
        proof {
            assert(prefix@ =~= default_scan(None, None, Some(*object)).1);
            assert(prefix@ =~= any_graph_scan(None, None, Some(*object)).1);
        }
        ChainedDecodingQuadIterator::pair(
            self.dosp_quads(prefix.as_slice()),
            self.ospg_quads(prefix.as_slice()),
        )
    }

    /// The quads of one graph with the given nothing.
    fn quads_for_graph(&self, graph_name: &EncodedTerm) -> (it: ChainedDecodingQuadIterator)
        requires
            self.wf(),
        ensures
            it.follows(self@, pattern_plan(None, None, None, Some(*graph_name))),
    {
        if graph_name.is_default_graph() {
            let prefix = Vec::<u8>::new();
            proof {
                assert(prefix@ =~= default_scan(None, None, None).1);
            }
            ChainedDecodingQuadIterator::new(self.dspo_quads(prefix.as_slice()))
        } else {
            let prefix = encode_term(graph_name);
            proof {
                assert(prefix@ =~= named_graph_scan(None, None, None, *graph_name).1);
            }
            ChainedDecodingQuadIterator::new(self.gspo_quads(prefix.as_slice()))
        }
    }

    /// The quads of one graph with the given subject.
    fn quads_for_subject_graph(&self, subject: &EncodedTerm, graph_name: &EncodedTerm) -> (it: ChainedDecodingQuadIterator)
        requires
            self.wf(),
        ensures
            it.follows(self@, pattern_plan(Some(*subject), None, None, Some(*graph_name))),
    {
        if graph_name.is_default_graph() {
            let prefix = encode_term(subject);
            proof {
                assert(prefix@ =~= default_scan(Some(*subject), None, None).1);
            }
            ChainedDecodingQuadIterator::new(self.dspo_quads(prefix.as_slice()))
        } else {
            let prefix = encode_term_pair(graph_name, subject);
            proof {
                assert(prefix@ =~= named_graph_scan(Some(*subject), None, None, *graph_name).1);
            }
            ChainedDecodingQuadIterator::new(self.gspo_quads(prefix.as_slice()))
        }
    }

    /// The quads of one graph with the given subject and predicate.
    fn quads_for_subject_predicate_graph(
        &self,
        subject: &EncodedTerm,
        predicate: &EncodedTerm,
        graph_name: &EncodedTerm,
    ) -> (it: ChainedDecodingQuadIterator)
        requires
            self.wf(),
        ensures
            it.follows(self@, pattern_plan(Some(*subject), Some(*predicate), None, Some(*graph_name))),
    {
        if graph_name.is_default_graph() {
            let prefix = encode_term_pair(subject, predicate);
            proof {
                assert(prefix@ =~= default_scan(Some(*subject), Some(*predicate), None).1);
            }
            ChainedDecodingQuadIterator::new(self.dspo_quads(prefix.as_slice()))
        } else {
            let prefix = encode_term_triple(graph_name, subject, predicate);
            proof {
                assert(prefix@ =~= named_graph_scan(Some(*subject), Some(*predicate), None, *graph_name).1);
            }
            ChainedDecodingQuadIterator::new(self.gspo_quads(prefix.as_slice()))
        }
    }

    /// The quads of one graph with the given subject and predicate and object.
    fn quads_for_subject_predicate_object_graph(
        &self,
        subject: &EncodedTerm,
        predicate: &EncodedTerm,
        object: &EncodedTerm,
        graph_name: &EncodedTerm,
    ) -> (it: ChainedDecodingQuadIterator)
        requires
            self.wf(),
        ensures
            it.follows(self@, pattern_plan(Some(*subject), Some(*predicate), Some(*object), Some(*graph_name))),
    {
        if graph_name.is_default_graph() {
            let prefix = encode_term_triple(subject, predicate, object);
            proof {
                assert(prefix@ =~= default_scan(Some(*subject), Some(*predicate), Some(*object)).1);
            }
            ChainedDecodingQuadIterator::new(self.dspo_quads(prefix.as_slice()))
        } else {
            let prefix = encode_term_quad(graph_name, subject, predicate, object);
            proof {
                assert(prefix@ =~= named_graph_scan(Some(*subject), Some(*predicate), Some(*object), *graph_name).1);
            }
            ChainedDecodingQuadIterator::new(self.gspo_quads(prefix.as_slice()))
        }
    }

    /// The quads of one graph with the given subject and object.
    fn quads_for_subject_object_graph(
        &self,
        subject: &EncodedTerm,
        object: &EncodedTerm,
        graph_name: &EncodedTerm,
    ) -> (it: ChainedDecodingQuadIterator)
        requires
            self.wf(),
        ensures
            it.follows(self@, pattern_plan(Some(*subject), None, Some(*object), Some(*graph_name))),
    {
        if graph_name.is_default_graph() {
            let prefix = encode_term_pair(object, subject);
            proof {
                assert(prefix@ =~= default_scan(Some(*subject), None, Some(*object)).1);
            }
            ChainedDecodingQuadIterator::new(self.dosp_quads(prefix.as_slice()))
        } else {
            let prefix = encode_term_triple(graph_name, object, subject);
            proof {
                assert(prefix@ =~= named_graph_scan(Some(*subject), None, Some(*object), *graph_name).1);
            }
            ChainedDecodingQuadIterator::new(self.gosp_quads(prefix.as_slice()))
        }
    }

    /// The quads of one graph with the given predicate.
    fn quads_for_predicate_graph(
        &self,
        predicate: &EncodedTerm,
        graph_name: &EncodedTerm,
    ) -> (it: ChainedDecodingQuadIterator)
        requires
            self.wf(),
        ensures
            it.follows(self@, pattern_plan(None, Some(*predicate), None, Some(*graph_name))),
    {
        if graph_name.is_default_graph() {
            let prefix = encode_term(predicate);
            proof {
                assert(prefix@ =~= default_scan(None, Some(*predicate), None).1);
            }
            ChainedDecodingQuadIterator::new(self.dpos_quads(prefix.as_slice()))
        } else {
            let prefix = encode_term_pair(graph_name, predicate);
            proof {
                assert(prefix@ =~= named_graph_scan(None, Some(*predicate), None, *graph_name).1);
            }
            ChainedDecodingQuadIterator::new(self.gpos_quads(prefix.as_slice()))
        }
    }

    /// The quads of one graph with the given predicate and object.
    fn quads_for_predicate_object_graph(
        &self,
        predicate: &EncodedTerm,
        object: &EncodedTerm,
        graph_name: &EncodedTerm,
    ) -> (it: ChainedDecodingQuadIterator)
        requires
            self.wf(),
        ensures
            it.follows(self@, pattern_plan(None, Some(*predicate), Some(*object), Some(*graph_name))),
    {
        if graph_name.is_default_graph() {
            let prefix = encode_term_pair(predicate, object);
            proof {
                assert(prefix@ =~= default_scan(None, Some(*predicate), Some(*object)).1);
            }
            ChainedDecodingQuadIterator::new(self.dpos_quads(prefix.as_slice()))
        } else {
            let prefix = encode_term_triple(graph_name, predicate, object);
            proof {
                assert(prefix@ =~= named_graph_scan(None, Some(*predicate), Some(*object), *graph_name).1);
            }
            ChainedDecodingQuadIterator::new(self.gpos_quads(prefix.as_slice()))
        }
    }

    /// The quads of one graph with the given object.
    fn quads_for_object_graph(&self, object: &EncodedTerm, graph_name: &EncodedTerm) -> (it: ChainedDecodingQuadIterator)
        requires
            self.wf(),
        ensures
            it.follows(self@, pattern_plan(None, None, Some(*object), Some(*graph_name))),
    {
        if graph_name.is_default_graph() {
            let prefix = encode_term(object);
            proof {
                assert(prefix@ =~= default_scan(None, None, Some(*object)).1);
            }
            ChainedDecodingQuadIterator::new(self.dosp_quads(prefix.as_slice()))
        } else {
            let prefix = encode_term_pair(graph_name, object);
            proof {
                assert(prefix@ =~= named_graph_scan(None, None, Some(*object), *graph_name).1);
            }
            ChainedDecodingQuadIterator::new(self.gosp_quads(prefix.as_slice()))
        }
    }

    /// The names of the graphs of the store.
    pub fn named_graphs(&self) -> (it: DecodingGraphIterator)
        requires
            self.wf(),
        ensures
            scan_result(self@[ColumnFamily::Graphs], Seq::<u8>::empty(), it.remaining()),
    {
        let keys = self.db.iter(ColumnFamily::Graphs);
        let it = DecodingGraphIterator { keys, position: 0 };
        proof {
            assert(it.remaining() =~= byte_strings(keys@));
        }
        it
    }

    /// Whether the set of graphs holds a graph name.
    pub fn contains_named_graph(&self, graph_name: &EncodedTerm) -> (r: Result<bool, StorageError>)
        requires
            self.wf(),
        ensures
            r matches Ok(b) && b == self@[ColumnFamily::Graphs].contains_key(
                term_bytes(*graph_name),
            ),
    {
        let key = encode_term(graph_name);
        Ok(self.db.contains_key(ColumnFamily::Graphs, key.as_slice()))
    }

    /// The scan of the index `spog` for a prefix.
    fn spog_quads(&self, prefix: &[u8]) -> (it: DecodingQuadIterator)
        requires
            self.wf(),
        ensures
            it.is_scan_of(self@, (QuadEncoding::Spog, prefix@)),
    {
        self.inner_quads(ColumnFamily::Spog, prefix, QuadEncoding::Spog)
    }

    /// The scan of the index `posg` for a prefix.
    fn posg_quads(&self, prefix: &[u8]) -> (it: DecodingQuadIterator)
        requires
            self.wf(),
        ensures
            it.is_scan_of(self@, (QuadEncoding::Posg, prefix@)),
    {
        self.inner_quads(ColumnFamily::Posg, prefix, QuadEncoding::Posg)
    }

    /// The scan of the index `ospg` for a prefix.
    fn ospg_quads(&self, prefix: &[u8]) -> (it: DecodingQuadIterator)
        requires
            self.wf(),
        ensures
            it.is_scan_of(self@, (QuadEncoding::Ospg, prefix@)),
    {
        self.inner_quads(ColumnFamily::Ospg, prefix, QuadEncoding::Ospg)
    }

    /// The scan of the index `gspo` for a prefix.
    fn gspo_quads(&self, prefix: &[u8]) -> (it: DecodingQuadIterator)
        requires
            self.wf(),
        ensures
            it.is_scan_of(self@, (QuadEncoding::Gspo, prefix@)),
    {
        self.inner_quads(ColumnFamily::Gspo, prefix, QuadEncoding::Gspo)
    }

    /// The scan of the index `gpos` for a prefix.
    fn gpos_quads(&self, prefix: &[u8]) -> (it: DecodingQuadIterator)
        requires
            self.wf(),
        ensures
            it.is_scan_of(self@, (QuadEncoding::Gpos, prefix@)),
    {
        self.inner_quads(ColumnFamily::Gpos, prefix, QuadEncoding::Gpos)
    }

    /// The scan of the index `gosp` for a prefix.
    fn gosp_quads(&self, prefix: &[u8]) -> (it: DecodingQuadIterator)
        requires
            self.wf(),
        ensures
            it.is_scan_of(self@, (QuadEncoding::Gosp, prefix@)),
    {
        self.inner_quads(ColumnFamily::Gosp, prefix, QuadEncoding::Gosp)
    }

    /// The scan of the index `dspo` for a prefix.
    fn dspo_quads(&self, prefix: &[u8]) -> (it: DecodingQuadIterator)
        requires
            self.wf(),
        ensures
            it.is_scan_of(self@, (QuadEncoding::Dspo, prefix@)),
    {
        self.inner_quads(ColumnFamily::Dspo, prefix, QuadEncoding::Dspo)
    }

    /// The scan of the index `dpos` for a prefix.
    fn dpos_quads(&self, prefix: &[u8]) -> (it: DecodingQuadIterator)
        requires
            self.wf(),
        ensures
            it.is_scan_of(self@, (QuadEncoding::Dpos, prefix@)),
    {
        self.inner_quads(ColumnFamily::Dpos, prefix, QuadEncoding::Dpos)
    }

    /// The scan of the index `dosp` for a prefix.
    fn dosp_quads(&self, prefix: &[u8]) -> (it: DecodingQuadIterator)
        requires
            self.wf(),
        ensures
            it.is_scan_of(self@, (QuadEncoding::Dosp, prefix@)),
    {
        self.inner_quads(ColumnFamily::Dosp, prefix, QuadEncoding::Dosp)
    }

    /// The scan of a column family for a prefix, to be decoded in the
    /// order of `encoding`.
    fn inner_quads(&self, column_family: ColumnFamily, prefix: &[u8], encoding: QuadEncoding) -> (it:
        DecodingQuadIterator)
        requires
            self.wf(),
        ensures
            it.encoding() == encoding,
            scan_result(self@[column_family], prefix@, it.remaining()),
    {
        let keys = self.db.scan_prefix(column_family, prefix);
        let it = DecodingQuadIterator { keys, position: 0, encoding };
        proof {
            assert(it.remaining() =~= byte_strings(keys@));
        }
        it
    }
}

/// The key of a hash in the string table.
pub fn hash_key(key: &StrHash) -> (bytes: Vec<u8>)
    ensures
        bytes@ == u128_bytes(key.hash),
{
    let mut bytes: Vec<u8> = Vec::new();
    write_u128(&mut bytes, key.hash);
    proof {
        assert(bytes@ =~= u128_bytes(key.hash));
    }
    bytes
}

/// What looking up a hash in a string table gives.
pub open spec fn stored_text(table: Rows, key: StrHash) -> Result<Option<Seq<u8>>, CorruptionError> {
    let k = u128_bytes(key.hash);
    if !table.contains_key(k) {
        Ok(None)
    } else if valid_utf8(table[k]) {
        Ok(Some(table[k]))
    } else {
        Err(CorruptionError::BadString)
    }
}

impl StorageReader {
    /// The text that the string table holds for a hash.
    pub fn get_str(&self, key: &StrHash) -> (r: Result<Option<String>, StorageError>)
        requires
            self.wf(),
        ensures
            match stored_text(self@[ColumnFamily::Id2Str], *key) {
                Ok(None) => r == Ok::<Option<String>, StorageError>(None),
                Ok(Some(bytes)) => r matches Ok(Some(text)) && encode_utf8(text@) == bytes,
                Err(e) => r == Err::<Option<String>, _>(StorageError::Corruption(e)),
            },
    {
        let k = hash_key(key);
        match self.db.get(ColumnFamily::Id2Str, k.as_slice()) {
            None => Ok(None),
            Some(value) => match string_from_utf8(copy_bytes(value.as_slice())) {
                Some(text) => Ok(Some(text)),
                None => Err(StorageError::Corruption(CorruptionError::BadString)),
            },
        }
    }

    /// Whether the string table holds a text for a hash.
    pub fn contains_str(&self, key: &StrHash) -> (r: Result<bool, StorageError>)
        requires
            self.wf(),
        ensures
            r matches Ok(b) && b == self@[ColumnFamily::Id2Str].contains_key(u128_bytes(key.hash)),
    {
        let k = hash_key(key);
        Ok(self.db.contains_key(ColumnFamily::Id2Str, k.as_slice()))
    }
}

/// Whether the string table holds a valid text for a hash.
pub open spec fn hash_readable(table: Rows, h: StrHash) -> bool {
    table.contains_key(u128_bytes(h.hash)) && valid_utf8(table[u128_bytes(h.hash)])
}

/// Whether the string table holds a valid text for every hash of a term.
pub open spec fn term_readable(table: Rows, t: EncodedTerm) -> bool
    decreases t,
{
    match t {
        EncodedTerm::NamedNode { iri_id } => hash_readable(table, iri_id),
        EncodedTerm::BigBlankNode { id_id } => hash_readable(table, id_id),
        EncodedTerm::BigStringLiteral { value_id } => hash_readable(table, value_id),
        EncodedTerm::SmallBigLangStringLiteral { value, language_id } => hash_readable(
            table,
            language_id,
        ),
        EncodedTerm::BigSmallLangStringLiteral { value_id, language } => hash_readable(
            table,
            value_id,
        ),
        EncodedTerm::BigBigLangStringLiteral { value_id, language_id } => hash_readable(
            table,
            value_id,
        ) && hash_readable(table, language_id),
        EncodedTerm::SmallTypedLiteral { value, datatype_id } => hash_readable(table, datatype_id),
        EncodedTerm::BigTypedLiteral { value_id, datatype_id } => hash_readable(table, value_id)
            && hash_readable(table, datatype_id),
        EncodedTerm::Triple(triple) => term_readable(table, triple.subject) && term_readable(
            table,
            triple.predicate,
        ) && term_readable(table, triple.object),
        _ => true,
    }
}

/// Whether the string table holds a valid text for every hash of a quad.
pub open spec fn quad_readable(table: Rows, q: EncodedQuad) -> bool {
    &&& term_readable(table, q.subject)
    &&& term_readable(table, q.predicate)
    &&& term_readable(table, q.object)
    &&& term_readable(table, q.graph_name)
}

/// Whether the string table holds a valid text for every hash of the quad
/// of a key.
pub open spec fn row_readable(v: DbView, encoding: QuadEncoding, k: Seq<u8>) -> bool {
    parse_quad(encoding, k) matches Ok(q) ==> quad_readable(v[ColumnFamily::Id2Str], q)
}

/// Whether the string table holds a valid text for every hash of every
/// quad: of the rows of the index `dspo` and of those of the index `gspo`.
pub open spec fn readable(v: DbView) -> bool {
    &&& forall|k: Seq<u8>| #[trigger]
        v[ColumnFamily::Dspo].contains_key(k) ==> row_readable(v, QuadEncoding::Dspo, k)
    &&& forall|k: Seq<u8>| #[trigger]
        v[ColumnFamily::Gspo].contains_key(k) ==> row_readable(v, QuadEncoding::Gspo, k)
}

/// Why the string table does not give the text of a hash: it has no row
/// for the hash, or the row holds no text.
pub open spec fn hash_fault(table: Rows, h: StrHash) -> Option<CorruptionError> {
    if !table.contains_key(u128_bytes(h.hash)) {
        Some(CorruptionError::MissingString)
    } else if !valid_utf8(table[u128_bytes(h.hash)]) {
        Some(CorruptionError::BadString)
    } else {
        None
    }
}

/// Why the string table does not give the texts of a term: the fault of
/// the first hash of the term that has one.
pub open spec fn term_text_fault(table: Rows, t: EncodedTerm) -> Option<CorruptionError>
    decreases t,
{
    match t {
        EncodedTerm::NamedNode { iri_id } => hash_fault(table, iri_id),
        EncodedTerm::BigBlankNode { id_id } => hash_fault(table, id_id),
        EncodedTerm::BigStringLiteral { value_id } => hash_fault(table, value_id),
        EncodedTerm::SmallBigLangStringLiteral { value, language_id } => hash_fault(
            table,
            language_id,
        ),
        EncodedTerm::BigSmallLangStringLiteral { value_id, language } => hash_fault(table, value_id),
        EncodedTerm::BigBigLangStringLiteral { value_id, language_id } => first_fault(
            hash_fault(table, value_id),
            hash_fault(table, language_id),
        ),
        EncodedTerm::SmallTypedLiteral { value, datatype_id } => hash_fault(table, datatype_id),
        EncodedTerm::BigTypedLiteral { value_id, datatype_id } => first_fault(
            hash_fault(table, value_id),
            hash_fault(table, datatype_id),
        ),
        EncodedTerm::Triple(triple) => first_fault(
            term_text_fault(table, triple.subject),
            first_fault(
                term_text_fault(table, triple.predicate),
                term_text_fault(table, triple.object),
            ),
        ),
        _ => None,
    }
}

/// Why the string table does not give the texts of a quad: the fault of
/// the first of subject, predicate, object and graph name that has one.
pub open spec fn quad_text_fault(table: Rows, q: EncodedQuad) -> Option<CorruptionError> {
    first_fault(
        term_text_fault(table, q.subject),
        first_fault(
            term_text_fault(table, q.predicate),
            first_fault(term_text_fault(table, q.object), term_text_fault(table, q.graph_name)),
        ),
    )
}

/// The texts of a term can be read exactly if nothing stands against it.
pub proof fn lemma_term_text_fault(table: Rows, t: EncodedTerm)
    ensures
        term_readable(table, t) == (term_text_fault(table, t) is None),
    decreases t,
{
    match t {
        EncodedTerm::Triple(triple) => {
            lemma_term_text_fault(table, triple.subject);
            lemma_term_text_fault(table, triple.predicate);
            lemma_term_text_fault(table, triple.object);
        },
        _ => {},
    }
}

/// The texts of a quad can be read exactly if nothing stands against it.
pub proof fn lemma_quad_text_fault(table: Rows, q: EncodedQuad)
    ensures
        quad_readable(table, q) == (quad_text_fault(table, q) is None),
{
    lemma_term_text_fault(table, q.subject);
    lemma_term_text_fault(table, q.predicate);
    lemma_term_text_fault(table, q.object);
    lemma_term_text_fault(table, q.graph_name);
}

/// Whether the index of `at` lacks the row of a quad that the index of
/// `from`, which is of the same group, holds under the key `k`.
pub open spec fn lacking(v: DbView, from: QuadEncoding, k: Seq<u8>, at: QuadEncoding) -> bool {
    &&& v[from.spec_family()].contains_key(k)
    &&& from.is_default_graph_order() == at.is_default_graph_order()
    &&& parse_quad(from, k) matches Ok(q) && !key_in(v, at, q)
}

/// Whether some index lacks the row of a quad that another index of its
/// group holds.
pub open spec fn lacks_row(v: DbView) -> bool {
    exists|from: QuadEncoding, k: Seq<u8>, at: QuadEncoding| lacking(v, from, k, at)
}

/// The place of an index in the order in which a validation goes through
/// the indexes.
pub open spec fn place(encoding: QuadEncoding) -> int {
    match encoding {
        QuadEncoding::Dspo => 0,
        QuadEncoding::Dpos => 1,
        QuadEncoding::Dosp => 2,
        QuadEncoding::Gspo => 3,
        QuadEncoding::Gpos => 4,
        QuadEncoding::Gosp => 5,
        QuadEncoding::Spog => 6,
        QuadEncoding::Posg => 7,
        QuadEncoding::Ospg => 8,
    }
}

/// Whether the row `k2` of the index of `e2` comes before the row `k` of
/// the index of `e` where a validation goes through the rows: in an
/// earlier index, or in the same index under a lower key.
pub open spec fn row_before(e2: QuadEncoding, k2: Seq<u8>, e: QuadEncoding, k: Seq<u8>) -> bool {
    place(e2) < place(e) || (e2 == e && lex_lt(k2, k))
}

/// Whether `at` is the first index, in the order of a validation, that
/// lacks the row of the quad that the index of `from` holds under `k`.
pub open spec fn first_at(v: DbView, from: QuadEncoding, k: Seq<u8>, at: QuadEncoding) -> bool {
    lacking(v, from, k, at) && forall|other: QuadEncoding| #[trigger]
        lacking(v, from, k, other) ==> place(other) >= place(at)
}

/// Whether the row `k` of the index of `from` is the first row, in the
/// order of a validation, of a quad whose row another index of its group
/// lacks, and `at` the first index that lacks it.
pub open spec fn first_lacking(v: DbView, from: QuadEncoding, k: Seq<u8>, at: QuadEncoding) -> bool {
    first_at(v, from, k, at) && forall|f2: QuadEncoding, k2: Seq<u8>, a2: QuadEncoding| #[trigger]
        lacking(v, f2, k2, a2) ==> !row_before(f2, k2, from, k)
}

/// Whether an error names the index `at` and the key that the quad of
/// the row `k` of the index of `from` has there.
pub open spec fn says_lacking(from: QuadEncoding, k: Seq<u8>, at: QuadEncoding, e: StorageError) -> bool {
    e matches StorageError::Corruption(CorruptionError::MissingFromIndex { index, key }) && index
        == at.spec_family() && key@ == quad_key(at, parse_quad(from, k)->Ok_0)
}

/// Whether an error names the first row that an index lacks while
/// another index of its group holds the quad: the index, and the key that
/// the quad has there.
pub open spec fn names_lacking(v: DbView, e: StorageError) -> bool {
    exists|from: QuadEncoding, k: Seq<u8>, at: QuadEncoding| #[trigger]
        first_lacking(v, from, k, at) && says_lacking(from, k, at, e)
}

/// The index at a place in the order of a validation.
fn encoding_at(i: usize) -> (encoding: QuadEncoding)
    requires
        i < 9,
    ensures
        place(encoding) == i,
{
    if i == 0 {
        QuadEncoding::Dspo
    } else if i == 1 {
        QuadEncoding::Dpos
    } else if i == 2 {
        QuadEncoding::Dosp
    } else if i == 3 {
        QuadEncoding::Gspo
    } else if i == 4 {
        QuadEncoding::Gpos
    } else if i == 5 {
        QuadEncoding::Gosp
    } else if i == 6 {
        QuadEncoding::Spog
    } else if i == 7 {
        QuadEncoding::Posg
    } else {
        QuadEncoding::Ospg
    }
}

/// Whether keys in the order of an index hold no graph name.
fn without_graph_name(encoding: QuadEncoding) -> (b: bool)
    ensures
        b == encoding.is_default_graph_order(),
{
    match encoding {
        QuadEncoding::Dspo | QuadEncoding::Dpos | QuadEncoding::Dosp => true,
        _ => false,
    }
}

/// A key of a table that is below a key of a scan of the whole table
/// stands before it in the scan.
proof fn lemma_scan_before(table: Map<Seq<u8>, Seq<u8>>, keys: Seq<Seq<u8>>, i: int, k: Seq<u8>) -> (j:
    int)
    requires
        scan_result(table, Seq::<u8>::empty(), keys),
        0 <= i < keys.len(),
        table.contains_key(k),
        lex_lt(k, keys[i]),
    ensures
        0 <= j < i,
        keys[j] == k,
{
    assert(k.subrange(0, 0) =~= Seq::<u8>::empty());
    assert(keys.contains(k));
    let j = choose|j: int| 0 <= j < keys.len() && keys[j] == k;
    if j == i {
        lemma_lex_irreflexive(k);
    } else if j > i {
        assert(lex_lt(keys[i], keys[j]));
        lemma_lex_transitive(k, keys[i], k);
        lemma_lex_irreflexive(k);
    }
    j
}

/// Indexes of which one lacks the row of a quad that another index of its
/// group holds are not coherent.
pub proof fn lemma_lacking_is_incoherent(v: DbView)
    ensures
        lacks_row(v) ==> !coherent(v),
{
    if lacks_row(v) && coherent(v) {
        let (from, k, at) = choose|from: QuadEncoding, k: Seq<u8>, at: QuadEncoding|
            lacking(v, from, k, at);
        assert(index_coherent(v, from));
        assert(row_coherent(v, from, k));
        match at {
            QuadEncoding::Spog => {},
            QuadEncoding::Posg => {},
            QuadEncoding::Ospg => {},
            QuadEncoding::Gspo => {},
            QuadEncoding::Gpos => {},
            QuadEncoding::Gosp => {},
            QuadEncoding::Dspo => {},
            QuadEncoding::Dpos => {},
            QuadEncoding::Dosp => {},
        }
    }
}

/// An error that says which key a column family lacks.
fn missing_from(index: ColumnFamily, key: Vec<u8>) -> (e: StorageError)
    ensures
        e matches StorageError::Corruption(CorruptionError::MissingFromIndex { index: i, key: k })
            && i == index && k == key,
{
    StorageError::Corruption(CorruptionError::MissingFromIndex { index, key })
}

impl StorageReader {
    /// Checks that the string table holds a valid text for a hash.
    fn check_hash(&self, h: &StrHash) -> (r: Result<(), StorageError>)
        requires
            self.wf(),
        ensures
            r is Ok == hash_readable(self@[ColumnFamily::Id2Str], *h),
            fails_with(r, hash_fault(self@[ColumnFamily::Id2Str], *h)),
    {
        let k = hash_key(h);
        match self.db.get(ColumnFamily::Id2Str, k.as_slice()) {
            None => Err(StorageError::Corruption(CorruptionError::MissingString)),
            Some(value) => if is_utf8(value.as_slice()) {
                Ok(())
            } else {
                Err(StorageError::Corruption(CorruptionError::BadString))
            },
        }
    }

    /// Checks that the string table holds a valid text for every hash of
    /// a term.
    pub fn check_term(&self, t: &EncodedTerm) -> (r: Result<(), StorageError>)
        requires
            self.wf(),
        ensures
            r is Ok == term_readable(self@[ColumnFamily::Id2Str], *t),
            fails_with(r, term_text_fault(self@[ColumnFamily::Id2Str], *t)),
        decreases *t,
    {
        match t {
            EncodedTerm::NamedNode { iri_id } => self.check_hash(iri_id),
            EncodedTerm::BigBlankNode { id_id } => self.check_hash(id_id),
            EncodedTerm::BigStringLiteral { value_id } => self.check_hash(value_id),
            EncodedTerm::SmallBigLangStringLiteral { value, language_id } => self.check_hash(
                language_id,
            ),
            EncodedTerm::BigSmallLangStringLiteral { value_id, language } => self.check_hash(
                value_id,
            ),
            EncodedTerm::BigBigLangStringLiteral { value_id, language_id } => {
                self.check_hash(value_id)?;
                self.check_hash(language_id)
            },
            EncodedTerm::SmallTypedLiteral { value, datatype_id } => self.check_hash(datatype_id),
            EncodedTerm::BigTypedLiteral { value_id, datatype_id } => {
                self.check_hash(value_id)?;
                self.check_hash(datatype_id)
            },
            EncodedTerm::Triple(triple) => {
                self.check_term(&triple.subject)?;
                self.check_term(&triple.predicate)?;
                self.check_term(&triple.object)
            },
            _ => Ok(()),
        }
    }

    /// Checks that the string table holds a valid text for every hash of
    /// a quad.
    pub fn check_quad(&self, q: &EncodedQuad) -> (r: Result<(), StorageError>)
        requires
            self.wf(),
        ensures
            r is Ok == quad_readable(self@[ColumnFamily::Id2Str], *q),
            fails_with(r, quad_text_fault(self@[ColumnFamily::Id2Str], *q)),
    {
        self.check_term(&q.subject)?;
        self.check_term(&q.predicate)?;
        self.check_term(&q.object)?;
        self.check_term(&q.graph_name)
    }

    /// Checks that one index holds the key of a quad.
    fn check_key(&self, encoding: QuadEncoding, key: Vec<u8>) -> (r: Result<(), StorageError>)
        requires
            self.wf(),
        ensures
            r is Ok == self@[encoding.spec_family()].contains_key(key@),
            r matches Err(e) ==> e == StorageError::Corruption(
                CorruptionError::MissingFromIndex { index: encoding.spec_family(), key },
            ),
    {
        if self.db.contains_key(encoding.family(), key.as_slice()) {
            Ok(())
        } else {
            Err(missing_from(encoding.family(), key))
        }
    }

    /// The key of a quad in the order of an index.
    pub fn key_of(encoding: QuadEncoding, q: &EncodedQuad) -> (key: Vec<u8>)
        ensures
            key@ == quad_key(encoding, *q),
    {
        let mut key: Vec<u8> = Vec::new();
        match encoding {
            QuadEncoding::Spog => write_spog_quad(&mut key, q),
            QuadEncoding::Posg => write_posg_quad(&mut key, q),
            QuadEncoding::Ospg => write_ospg_quad(&mut key, q),
            QuadEncoding::Gspo => write_gspo_quad(&mut key, q),
            QuadEncoding::Gpos => write_gpos_quad(&mut key, q),
            QuadEncoding::Gosp => write_gosp_quad(&mut key, q),
            QuadEncoding::Dspo => write_spo_quad(&mut key, q),
            QuadEncoding::Dpos => write_pos_quad(&mut key, q),
            QuadEncoding::Dosp => write_osp_quad(&mut key, q),
        }
        proof {
            assert(key@ =~= quad_key(encoding, *q));
        }
        key
    }

    /// Checks that one index of the group of `from` holds the key of a
    /// quad that the index of `from` holds under the key `k`.
    fn probe_key(&self, from: QuadEncoding, k: &[u8], q: &EncodedQuad, at: QuadEncoding) -> (r:
        Result<(), StorageError>)
        requires
            self.wf(),
            self@[from.spec_family()].contains_key(k@),
            parse_quad(from, k@) == Ok::<EncodedQuad, CorruptionError>(*q),
            from.is_default_graph_order() == at.is_default_graph_order(),
        ensures
            r is Ok == !lacking(self@, from, k@, at),
            r matches Err(e) ==> says_lacking(from, k@, at, e),
    {
        self.check_key(at, StorageReader::key_of(at, q))
    }

    /// Checks that every index of the group of `from` holds the key of a
    /// quad that the index of `from` holds under the key `k`, index by
    /// index in the order of a validation.
    fn probe_quad(&self, from: QuadEncoding, k: &[u8], q: &EncodedQuad) -> (r: Result<
        (),
        StorageError,
    >)
        requires
            self.wf(),
            self@[from.spec_family()].contains_key(k@),
            parse_quad(from, k@) == Ok::<EncodedQuad, CorruptionError>(*q),
        ensures
            r is Ok == (forall|at: QuadEncoding| !lacking(self@, from, k@, at)),
            r matches Err(e) ==> exists|at: QuadEncoding| #[trigger]
                first_at(self@, from, k@, at) && says_lacking(from, k@, at, e),
    {
        let mut j: usize = 0;
        while j < 9
            invariant
                j <= 9,
                self.wf(),
                self@[from.spec_family()].contains_key(k@),
                parse_quad(from, k@) == Ok::<EncodedQuad, CorruptionError>(*q),
                forall|other: QuadEncoding|
                    place(other) < j ==> !#[trigger] lacking(self@, from, k@, other),
            decreases 9 - j,
        {
            let at = encoding_at(j);
            if without_graph_name(at) == without_graph_name(from) {
                match self.probe_key(from, k, q, at) {
                    Ok(()) => {},
                    Err(e) => {
                        proof {
                            assert(first_at(self@, from, k@, at));
                        }
                        return Err(e);
                    },
                }
            }
            proof {
                assert forall|other: QuadEncoding| place(other) < j + 1 implies !#[trigger] lacking(
                    self@,
                    from,
                    k@,
                    other,
                ) by {
                    if place(other) == j {
                        assert(other == at);
                    }
                }
            }
            j = j + 1;
        }
        Ok(())
    }

    /// Checks that the other indexes of the group of an index hold every
    /// quad that the index holds, row by row in the order of the keys. A
    /// row that does not decode is passed over.
    fn probe_index(&self, from: QuadEncoding) -> (r: Result<(), StorageError>)
        requires
            self.wf(),
        ensures
            r is Ok == (forall|k: Seq<u8>, at: QuadEncoding| !lacking(self@, from, k, at)),
            r matches Err(e) ==> exists|k: Seq<u8>, at: QuadEncoding| #[trigger]
                first_at(self@, from, k, at) && says_lacking(from, k, at, e) && forall|
                k2: Seq<u8>,
                a2: QuadEncoding,
            | #[trigger] lacking(self@, from, k2, a2) ==> !lex_lt(k2, k),
    {
        let keys = self.db.iter(from.family());
        let ghost all = byte_strings(keys@);
        let ghost table = self@[from.spec_family()];
        let mut i: usize = 0;
        while i < keys.len()
            invariant
                i <= keys@.len(),
                self.wf(),
                all == byte_strings(keys@),
                table == self@[from.spec_family()],
                scan_result(table, Seq::<u8>::empty(), all),
                forall|j: int, at: QuadEncoding|
                    0 <= j < i ==> !#[trigger] lacking(self@, from, all[j], at),
            decreases keys@.len() - i,
        {
            proof {
                assert(all[i as int] == keys@[i as int]@);
                assert(all.contains(all[i as int]));
            }
            match from.decode(keys[i].as_slice()) {
                Ok(quad) => {
                    match self.probe_quad(from, keys[i].as_slice(), &quad) {
                        Ok(()) => {},
                        Err(e) => {
                            proof {
                                let k = all[i as int];
                                let at = choose|at: QuadEncoding| #[trigger]
                                    first_at(self@, from, k, at) && says_lacking(from, k, at, e);
                                assert forall|k2: Seq<u8>, a2: QuadEncoding| #[trigger]
                                    lacking(self@, from, k2, a2) implies !lex_lt(k2, k) by {
                                    if lex_lt(k2, k) {
                                        let j = lemma_scan_before(table, all, i as int, k2);
                                        assert(!lacking(self@, from, all[j], a2));
                                    }
                                }
                                assert(first_at(self@, from, k, at) && says_lacking(from, k, at, e));
                            }
                            return Err(e);
                        },
                    }
                },
                Err(_) => {},
            }
            i = i + 1;
        }
        proof {
            assert forall|k: Seq<u8>, at: QuadEncoding| !lacking(self@, from, k, at) by {
                if self@[from.spec_family()].contains_key(k) {
                    assert(k.subrange(0, 0) =~= Seq::<u8>::empty());
                    assert(all.contains(k));
                    let j = choose|j: int| 0 <= j < all.len() && all[j] == k;
                    assert(!lacking(self@, from, all[j], at));
                }
            }
        }
        Ok(())
    }

    /// Checks that no index lacks the row of a quad that another index of
    /// its group holds, index by index in the order of a validation.
    fn probe_indexes(&self) -> (r: Result<(), StorageError>)
        requires
            self.wf(),
        ensures
            r is Ok == !lacks_row(self@),
            r matches Err(e) ==> names_lacking(self@, e),
    {
        let mut i: usize = 0;
        while i < 9
            invariant
                i <= 9,
                self.wf(),
                forall|f2: QuadEncoding, k2: Seq<u8>, a2: QuadEncoding|
                    place(f2) < i ==> !#[trigger] lacking(self@, f2, k2, a2),
            decreases 9 - i,
        {
            let from = encoding_at(i);
            match self.probe_index(from) {
                Ok(()) => {},
                Err(e) => {
                    proof {
                        let (k, at) = choose|k: Seq<u8>, at: QuadEncoding| #[trigger]
                            first_at(self@, from, k, at) && says_lacking(from, k, at, e) && forall|
                            k2: Seq<u8>,
                            a2: QuadEncoding,
                        | #[trigger] lacking(self@, from, k2, a2) ==> !lex_lt(k2, k);
                        assert forall|f2: QuadEncoding, k2: Seq<u8>, a2: QuadEncoding| #[trigger]
                            lacking(self@, f2, k2, a2) implies !row_before(f2, k2, from, k) by {
                            if place(f2) == place(from) {
                                assert(f2 == from);
                            }
                        }
                        assert(first_lacking(self@, from, k, at) && says_lacking(from, k, at, e));
                    }
                    return Err(e);
                },
            }
            proof {
                assert forall|f2: QuadEncoding, k2: Seq<u8>, a2: QuadEncoding|
                    place(f2) < i + 1 implies !#[trigger] lacking(self@, f2, k2, a2) by {
                    if place(f2) == i {
                        assert(f2 == from);
                    }
                }
            }
            i = i + 1;
        }
        proof {
            assert forall|f2: QuadEncoding, k2: Seq<u8>, a2: QuadEncoding| !lacking(
                self@,
                f2,
                k2,
                a2,
            ) by {
                assert(place(f2) < 9);
            }
        }
        Ok(())
    }
}

/// Whether the three indexes of the default graph have the same number
/// of rows.
pub open spec fn triples_agree(v: DbView) -> bool {
    &&& v[ColumnFamily::Dspo].len() == v[ColumnFamily::Dpos].len()
    &&& v[ColumnFamily::Dspo].len() == v[ColumnFamily::Dosp].len()
}

/// What a validation asks of the stored data: the indexes of each group
/// have the same number of rows; every row of every index decodes to a
/// quad whose key every index of its group holds, and whose graph name
/// the set of graphs holds if it has one; and the string table gives the
/// texts of the quads. A key may hold more than the quad that it decodes
/// to.
pub open spec fn valid(v: DbView) -> bool {
    &&& counts_agree(v)
    &&& forall|encoding: QuadEncoding| #[trigger] index_valid(v, encoding)
    &&& readable(v)
}

/// Whether every key of an index decodes.
pub open spec fn decodes(v: DbView, encoding: QuadEncoding) -> bool {
    forall|k: Seq<u8>| #[trigger]
        v[encoding.spec_family()].contains_key(k) ==> parse_quad(encoding, k) is Ok
}

/// Whether every key of every index decodes.
pub open spec fn all_decode(v: DbView) -> bool {
    forall|encoding: QuadEncoding| #[trigger] decodes(v, encoding)
}

/// Whether an error is that of the first key that does not decode, in
/// the order of a validation: of the first such key of the first index
/// that has one.
pub open spec fn names_undecodable(v: DbView, e: StorageError) -> bool {
    exists|encoding: QuadEncoding, c: CorruptionError| #[trigger]
        first_undecodable(v[encoding.spec_family()], encoding, c) && e == StorageError::Corruption(
            c,
        ) && forall|other: QuadEncoding| place(other) < place(encoding) ==> #[trigger] decodes(
            v,
            other,
        )
}

/// Whether a row of an index with graph names decodes to a quad whose
/// graph name the set of graphs lacks.
pub open spec fn unnamed(v: DbView, encoding: QuadEncoding, k: Seq<u8>) -> bool {
    &&& !encoding.is_default_graph_order()
    &&& v[encoding.spec_family()].contains_key(k)
    &&& parse_quad(encoding, k) matches Ok(q) && !v[ColumnFamily::Graphs].contains_key(
        term_bytes(q.graph_name),
    )
}

/// Whether the set of graphs holds the graph name of every quad.
pub open spec fn graphs_held(v: DbView) -> bool {
    forall|encoding: QuadEncoding, k: Seq<u8>| !#[trigger] unnamed(v, encoding, k)
}

/// Whether a row is the first, in the order of a validation, of a quad
/// whose graph name the set of graphs lacks.
pub open spec fn first_unnamed(v: DbView, encoding: QuadEncoding, k: Seq<u8>) -> bool {
    unnamed(v, encoding, k) && forall|e2: QuadEncoding, k2: Seq<u8>| #[trigger]
        unnamed(v, e2, k2) ==> !row_before(e2, k2, encoding, k)
}

/// Whether an error names the graph name of the quad of a row.
pub open spec fn says_unnamed(encoding: QuadEncoding, k: Seq<u8>, e: StorageError) -> bool {
    e matches StorageError::Corruption(CorruptionError::MissingGraphName { key }) && key@
        == term_bytes(parse_quad(encoding, k)->Ok_0.graph_name)
}

/// Whether an error names the graph name of the first quad, in the order
/// of a validation, whose graph name the set of graphs lacks.
pub open spec fn names_unnamed(v: DbView, e: StorageError) -> bool {
    exists|encoding: QuadEncoding, k: Seq<u8>| #[trigger]
        first_unnamed(v, encoding, k) && says_unnamed(encoding, k, e)
}

/// Whether a row of the first index of a group decodes to a quad of
/// which the string table does not give every text.
pub open spec fn unreadable(v: DbView, encoding: QuadEncoding, k: Seq<u8>) -> bool {
    &&& encoding is Dspo || encoding is Gspo
    &&& v[encoding.spec_family()].contains_key(k)
    &&& parse_quad(encoding, k) matches Ok(q) && !quad_readable(v[ColumnFamily::Id2Str], q)
}

/// Whether a row is the first, in the order of a validation, of a quad
/// of which the string table does not give every text.
pub open spec fn first_unreadable(v: DbView, encoding: QuadEncoding, k: Seq<u8>) -> bool {
    unreadable(v, encoding, k) && forall|e2: QuadEncoding, k2: Seq<u8>| #[trigger]
        unreadable(v, e2, k2) ==> !row_before(e2, k2, encoding, k)
}

/// Whether an error is the fault of the texts of the quad of a row.
pub open spec fn says_unreadable(v: DbView, encoding: QuadEncoding, k: Seq<u8>, e: StorageError) -> bool {
    Some(e) == (match quad_text_fault(v[ColumnFamily::Id2Str], parse_quad(encoding, k)->Ok_0) {
        Some(c) => Some(StorageError::Corruption(c)),
        None => None,
    })
}

/// Whether an error is the fault of the texts of the first quad, in the
/// order of a validation, of which the string table does not give every
/// text.
pub open spec fn names_unreadable(v: DbView, e: StorageError) -> bool {
    exists|encoding: QuadEncoding, k: Seq<u8>| #[trigger]
        first_unreadable(v, encoding, k) && says_unreadable(v, encoding, k, e)
}

/// Whether `e` is the error that a validation gives for the stored data.
/// Of the faults that the data has, the first of these decides: a row
/// that an index lacks; numbers of rows that differ, among the indexes of
/// the default graph or among the others; a key that does not decode; a
/// graph name that the set of graphs lacks; a text that the string table
/// does not give.
pub open spec fn validation_error(v: DbView, e: StorageError) -> bool {
    if lacks_row(v) {
        names_lacking(v, e)
    } else if !triples_agree(v) {
        e == StorageError::Corruption(CorruptionError::TripleCountMismatch)
    } else if !counts_agree(v) {
        e == StorageError::Corruption(CorruptionError::QuadCountMismatch)
    } else if !all_decode(v) {
        names_undecodable(v, e)
    } else if !graphs_held(v) {
        names_unnamed(v, e)
    } else {
        !readable(v) && names_unreadable(v, e)
    }
}

/// Stored data is valid exactly if it has none of the faults that a
/// validation looks for.
pub proof fn lemma_valid(v: DbView)
    ensures
        valid(v) == (!lacks_row(v) && counts_agree(v) && all_decode(v) && graphs_held(v)
            && readable(v)),
{
    if valid(v) {
        if lacks_row(v) {
            let (from, k, at) = choose|from: QuadEncoding, k: Seq<u8>, at: QuadEncoding|
                lacking(v, from, k, at);
            assert(index_valid(v, from));
            assert(row_valid(v, from, k));
            lemma_parsed_quad_wf(from, k);
            match at {
                QuadEncoding::Spog => {},
                QuadEncoding::Posg => {},
                QuadEncoding::Ospg => {},
                QuadEncoding::Gspo => {},
                QuadEncoding::Gpos => {},
                QuadEncoding::Gosp => {},
                QuadEncoding::Dspo => {},
                QuadEncoding::Dpos => {},
                QuadEncoding::Dosp => {},
            }
        }
        assert forall|encoding: QuadEncoding| #[trigger] decodes(v, encoding) by {
            assert(index_valid(v, encoding));
            assert forall|k: Seq<u8>| #[trigger]
                v[encoding.spec_family()].contains_key(k) implies parse_quad(encoding, k) is Ok by {
                assert(row_valid(v, encoding, k));
            }
        }
        assert forall|encoding: QuadEncoding, k: Seq<u8>| !#[trigger] unnamed(v, encoding, k) by {
            if unnamed(v, encoding, k) {
                assert(index_valid(v, encoding));
                assert(row_valid(v, encoding, k));
                lemma_parsed_quad_wf(encoding, k);
            }
        }
    }
    if !lacks_row(v) && counts_agree(v) && all_decode(v) && graphs_held(v) && readable(v) {
        assert forall|encoding: QuadEncoding| #[trigger] index_valid(v, encoding) by {
            assert forall|k: Seq<u8>| #[trigger]
                v[encoding.spec_family()].contains_key(k) implies row_valid(v, encoding, k) by {
                assert(decodes(v, encoding));
                lemma_parsed_quad_wf(encoding, k);
                let q = parse_quad(encoding, k)->Ok_0;
                assert(!lacking(v, encoding, k, QuadEncoding::Spog));
                assert(!lacking(v, encoding, k, QuadEncoding::Posg));
                assert(!lacking(v, encoding, k, QuadEncoding::Ospg));
                assert(!lacking(v, encoding, k, QuadEncoding::Gspo));
                assert(!lacking(v, encoding, k, QuadEncoding::Gpos));
                assert(!lacking(v, encoding, k, QuadEncoding::Gosp));
                assert(!lacking(v, encoding, k, QuadEncoding::Dspo));
                assert(!lacking(v, encoding, k, QuadEncoding::Dpos));
                assert(!lacking(v, encoding, k, QuadEncoding::Dosp));
                assert(!unnamed(v, encoding, k));
            }
        }
    }
}

/// Coherent stored data whose texts the string table gives is valid.
pub proof fn lemma_coherent_is_valid(v: DbView)
    requires
        coherent(v),
        readable(v),
    ensures
        valid(v),
{
    assert forall|encoding: QuadEncoding| #[trigger] index_valid(v, encoding) by {
        assert(index_coherent(v, encoding));
        assert forall|k: Seq<u8>| #[trigger]
            v[encoding.spec_family()].contains_key(k) implies row_valid(v, encoding, k) by {
            assert(row_coherent(v, encoding, k));
        }
    }
}

impl StorageReader {
    /// Checks that every key of an index decodes, key by key in the order
    /// of the keys.
    fn decode_index(&self, encoding: QuadEncoding) -> (r: Result<(), StorageError>)
        requires
            self.wf(),
        ensures
            r is Ok == decodes(self@, encoding),
            r matches Err(e) ==> exists|c: CorruptionError| #[trigger]
                first_undecodable(self@[encoding.spec_family()], encoding, c) && e
                    == StorageError::Corruption(c),
    {
        let keys = self.db.iter(encoding.family());
        let ghost all = byte_strings(keys@);
        let ghost table = self@[encoding.spec_family()];
        let mut i: usize = 0;
        while i < keys.len()
            invariant
                i <= keys@.len(),
                self.wf(),
                all == byte_strings(keys@),
                table == self@[encoding.spec_family()],
                scan_result(table, Seq::<u8>::empty(), all),
                forall|j: int| 0 <= j < i ==> parse_quad(encoding, #[trigger] all[j]) is Ok,
            decreases keys@.len() - i,
        {
            proof {
                assert(all[i as int] == keys@[i as int]@);
                assert(all.contains(all[i as int]));
            }
            match encoding.decode(keys[i].as_slice()) {
                Ok(_) => {},
                Err(e) => {
                    proof {
                        let fault = parse_quad(encoding, all[i as int])->Err_0;
                        lemma_first_undecodable(table, encoding, all, i as int, fault);
                        assert(first_undecodable(self@[encoding.spec_family()], encoding, fault));
                        assert(table.contains_key(all[i as int]));
                    }
                    return Err(e);
                },
            }
            i = i + 1;
        }
        proof {
            assert forall|k: Seq<u8>| #[trigger] table.contains_key(k) implies parse_quad(
                encoding,
                k,
            ) is Ok by {
                assert(k.subrange(0, 0) =~= Seq::<u8>::empty());
                assert(all.contains(k));
                let j = choose|j: int| 0 <= j < all.len() && all[j] == k;
                assert(parse_quad(encoding, all[j]) is Ok);
            }
        }
        Ok(())
    }

    /// Checks that every key of every index decodes, index by index in
    /// the order of a validation.
    fn decode_indexes(&self) -> (r: Result<(), StorageError>)
        requires
            self.wf(),
        ensures
            r is Ok == all_decode(self@),
            r matches Err(e) ==> names_undecodable(self@, e),
    {
        let mut i: usize = 0;
        while i < 9
            invariant
                i <= 9,
                self.wf(),
                forall|other: QuadEncoding| place(other) < i ==> #[trigger] decodes(self@, other),
            decreases 9 - i,
        {
            let encoding = encoding_at(i);
            match self.decode_index(encoding) {
                Ok(()) => {},
                Err(e) => {
                    proof {
                        let c = choose|c: CorruptionError| #[trigger]
                            first_undecodable(self@[encoding.spec_family()], encoding, c) && e
                                == StorageError::Corruption(c);
                        assert(first_undecodable(self@[encoding.spec_family()], encoding, c));
                        assert(!decodes(self@, encoding));
                    }
                    return Err(e);
                },
            }
            proof {
                assert forall|other: QuadEncoding| place(other) < i + 1 implies #[trigger] decodes(
                    self@,
                    other,
                ) by {
                    if place(other) == i {
                        assert(other == encoding);
                    }
                }
            }
            i = i + 1;
        }
        proof {
            assert forall|other: QuadEncoding| #[trigger] decodes(self@, other) by {
                assert(place(other) < 9);
            }
        }
        Ok(())
    }

    /// Checks that the set of graphs holds the graph name of every quad
    /// of an index with graph names, row by row in the order of the keys.
    /// A row that does not decode is passed over.
    fn named_index(&self, encoding: QuadEncoding) -> (r: Result<(), StorageError>)
        requires
            self.wf(),
            !encoding.is_default_graph_order(),
        ensures
            r is Ok == (forall|k: Seq<u8>| !#[trigger] unnamed(self@, encoding, k)),
            r matches Err(e) ==> exists|k: Seq<u8>| #[trigger]
                unnamed(self@, encoding, k) && says_unnamed(encoding, k, e) && forall|k2: Seq<u8>| #[trigger]
                    unnamed(self@, encoding, k2) ==> !lex_lt(k2, k),
    {
        let keys = self.db.iter(encoding.family());
        let ghost all = byte_strings(keys@);
        let ghost table = self@[encoding.spec_family()];
        let mut i: usize = 0;
        while i < keys.len()
            invariant
                i <= keys@.len(),
                self.wf(),
                !encoding.is_default_graph_order(),
                all == byte_strings(keys@),
                table == self@[encoding.spec_family()],
                scan_result(table, Seq::<u8>::empty(), all),
                forall|j: int| 0 <= j < i ==> !unnamed(self@, encoding, #[trigger] all[j]),
            decreases keys@.len() - i,
        {
            proof {
                assert(all[i as int] == keys@[i as int]@);
                assert(all.contains(all[i as int]));
            }
            match encoding.decode(keys[i].as_slice()) {
                Ok(quad) => {
                    let name = encode_term(&quad.graph_name);
                    if !self.db.contains_key(ColumnFamily::Graphs, name.as_slice()) {
                        proof {
                            let k = all[i as int];
                            assert(unnamed(self@, encoding, k));
                            assert forall|k2: Seq<u8>| #[trigger]
                                unnamed(self@, encoding, k2) implies !lex_lt(k2, k) by {
                                if lex_lt(k2, k) {
                                    let j = lemma_scan_before(table, all, i as int, k2);
                                    assert(!unnamed(self@, encoding, all[j]));
                                }
                            }
                        }
                        return Err(
                            StorageError::Corruption(CorruptionError::MissingGraphName { key: name }),
                        );
                    }
                },
                Err(_) => {},
            }
            i = i + 1;
        }
        proof {
            assert forall|k: Seq<u8>| !#[trigger] unnamed(self@, encoding, k) by {
                if self@[encoding.spec_family()].contains_key(k) {
                    assert(k.subrange(0, 0) =~= Seq::<u8>::empty());
                    assert(all.contains(k));
                    let j = choose|j: int| 0 <= j < all.len() && all[j] == k;
                    assert(!unnamed(self@, encoding, all[j]));
                }
            }
        }
        Ok(())
    }

    /// Checks that the set of graphs holds the graph name of every quad,
    /// index by index in the order of a validation.
    fn named_indexes(&self) -> (r: Result<(), StorageError>)
        requires
            self.wf(),
        ensures
            r is Ok == graphs_held(self@),
            r matches Err(e) ==> names_unnamed(self@, e),
    {
        let mut i: usize = 0;
        while i < 9
            invariant
                i <= 9,
                self.wf(),
                forall|e2: QuadEncoding, k2: Seq<u8>|
                    place(e2) < i ==> !#[trigger] unnamed(self@, e2, k2),
            decreases 9 - i,
        {
            let encoding = encoding_at(i);
            if !without_graph_name(encoding) {
                match self.named_index(encoding) {
                    Ok(()) => {},
                    Err(e) => {
                        proof {
                            let k = choose|k: Seq<u8>| #[trigger]
                                unnamed(self@, encoding, k) && says_unnamed(encoding, k, e)
                                    && forall|k2: Seq<u8>| #[trigger]
                                    unnamed(self@, encoding, k2) ==> !lex_lt(k2, k);
                            assert forall|e2: QuadEncoding, k2: Seq<u8>| #[trigger]
                                unnamed(self@, e2, k2) implies !row_before(e2, k2, encoding, k) by {
                                if place(e2) == place(encoding) {
                                    assert(e2 == encoding);
                                }
                            }
                            assert(first_unnamed(self@, encoding, k) && says_unnamed(encoding, k, e));
                        }
                        return Err(e);
                    },
                }
            }
            proof {
                assert forall|e2: QuadEncoding, k2: Seq<u8>| place(e2) < i + 1 implies !#[trigger] unnamed(
                    self@,
                    e2,
                    k2,
                ) by {
                    if place(e2) == i {
                        assert(e2 == encoding);
                    }
                }
            }
            i = i + 1;
        }
        proof {
            assert forall|e2: QuadEncoding, k2: Seq<u8>| !#[trigger] unnamed(self@, e2, k2) by {
                assert(place(e2) < 9);
            }
        }
        Ok(())
    }

    /// Checks that the string table gives the texts of every quad of the
    /// first index of a group, row by row in the order of the keys. A row
    /// that does not decode is passed over.
    fn texts_index(&self, encoding: QuadEncoding) -> (r: Result<(), StorageError>)
        requires
            self.wf(),
            encoding is Dspo || encoding is Gspo,
        ensures
            r is Ok == (forall|k: Seq<u8>| !#[trigger] unreadable(self@, encoding, k)),
            r matches Err(e) ==> exists|k: Seq<u8>| #[trigger]
                unreadable(self@, encoding, k) && says_unreadable(self@, encoding, k, e) && forall|
                k2: Seq<u8>,
            | #[trigger] unreadable(self@, encoding, k2) ==> !lex_lt(k2, k),
    {
        let keys = self.db.iter(encoding.family());
        let ghost all = byte_strings(keys@);
        let ghost table = self@[encoding.spec_family()];
        let mut i: usize = 0;
        while i < keys.len()
            invariant
                i <= keys@.len(),
                self.wf(),
                encoding is Dspo || encoding is Gspo,
                all == byte_strings(keys@),
                table == self@[encoding.spec_family()],
                scan_result(table, Seq::<u8>::empty(), all),
                forall|j: int| 0 <= j < i ==> !unreadable(self@, encoding, #[trigger] all[j]),
            decreases keys@.len() - i,
        {
            proof {
                assert(all[i as int] == keys@[i as int]@);
                assert(all.contains(all[i as int]));
            }
            match encoding.decode(keys[i].as_slice()) {
                Ok(quad) => {
                    match self.check_quad(&quad) {
                        Ok(()) => {},
                        Err(e) => {
                            proof {
                                let k = all[i as int];
                                assert(unreadable(self@, encoding, k));
                                assert(says_unreadable(self@, encoding, k, e));
                                assert forall|k2: Seq<u8>| #[trigger]
                                    unreadable(self@, encoding, k2) implies !lex_lt(k2, k) by {
                                    if lex_lt(k2, k) {
                                        let j = lemma_scan_before(table, all, i as int, k2);
                                        assert(!unreadable(self@, encoding, all[j]));
                                    }
                                }
                            }
                            return Err(e);
                        },
                    }
                },
                Err(_) => {},
            }
            i = i + 1;
        }
        proof {
            assert forall|k: Seq<u8>| !#[trigger] unreadable(self@, encoding, k) by {
                if self@[encoding.spec_family()].contains_key(k) {
                    assert(k.subrange(0, 0) =~= Seq::<u8>::empty());
                    assert(all.contains(k));
                    let j = choose|j: int| 0 <= j < all.len() && all[j] == k;
                    assert(!unreadable(self@, encoding, all[j]));
                }
            }
        }
        Ok(())
    }

    /// Checks that the string table gives the texts of every quad: of
    /// those of the first index of the default graph, then of those of
    /// the first index of the named graphs.
    fn texts_indexes(&self) -> (r: Result<(), StorageError>)
        requires
            self.wf(),
        ensures
            r is Ok == readable(self@),
            r matches Err(e) ==> names_unreadable(self@, e),
    {
        let ghost v = self@;
        proof {
            assert(QuadEncoding::Dspo.spec_family() == ColumnFamily::Dspo);
            assert(QuadEncoding::Gspo.spec_family() == ColumnFamily::Gspo);
            if readable(v) {
                assert forall|k: Seq<u8>| !#[trigger] unreadable(v, QuadEncoding::Dspo, k) by {
                    if v[ColumnFamily::Dspo].contains_key(k) {
                        assert(row_readable(v, QuadEncoding::Dspo, k));
                    }
                }
                assert forall|k: Seq<u8>| !#[trigger] unreadable(v, QuadEncoding::Gspo, k) by {
                    if v[ColumnFamily::Gspo].contains_key(k) {
                        assert(row_readable(v, QuadEncoding::Gspo, k));
                    }
                }
            }
        }
        match self.texts_index(QuadEncoding::Dspo) {
            Ok(()) => {},
            Err(e) => {
                proof {
                    let encoding = QuadEncoding::Dspo;
                    let k = choose|k: Seq<u8>| #[trigger]
                        unreadable(v, encoding, k) && says_unreadable(v, encoding, k, e) && forall|
                        k2: Seq<u8>,
                    | #[trigger] unreadable(v, encoding, k2) ==> !lex_lt(k2, k);
                    assert forall|e2: QuadEncoding, k2: Seq<u8>| #[trigger]
                        unreadable(v, e2, k2) implies !row_before(e2, k2, encoding, k) by {
                        if place(e2) == place(encoding) {
                            assert(e2 == encoding);
                        }
                    }
                    assert(first_unreadable(v, encoding, k) && says_unreadable(v, encoding, k, e));
                    assert(v[ColumnFamily::Dspo].contains_key(k));
                    assert(!row_readable(v, QuadEncoding::Dspo, k));
                }
                return Err(e);
            },
        }
        match self.texts_index(QuadEncoding::Gspo) {
            Ok(()) => {},
            Err(e) => {
                proof {
                    let encoding = QuadEncoding::Gspo;
                    let k = choose|k: Seq<u8>| #[trigger]
                        unreadable(v, encoding, k) && says_unreadable(v, encoding, k, e) && forall|
                        k2: Seq<u8>,
                    | #[trigger] unreadable(v, encoding, k2) ==> !lex_lt(k2, k);
                    assert forall|e2: QuadEncoding, k2: Seq<u8>| #[trigger]
                        unreadable(v, e2, k2) implies !row_before(e2, k2, encoding, k) by {
                        if place(e2) == place(encoding) {
                            assert(e2 == encoding);
                        } else if place(e2) < place(encoding) {
                            assert(e2 is Dspo);
                        }
                    }
                    assert(first_unreadable(v, encoding, k) && says_unreadable(v, encoding, k, e));
                    assert(v[ColumnFamily::Gspo].contains_key(k));
                    assert(!row_readable(v, QuadEncoding::Gspo, k));
                }
                return Err(e);
            },
        }
        proof {
            assert forall|k: Seq<u8>| #[trigger] v[ColumnFamily::Dspo].contains_key(k) implies row_readable(
                v,
                QuadEncoding::Dspo,
                k,
            ) by {
                assert(!unreadable(v, QuadEncoding::Dspo, k));
            }
            assert forall|k: Seq<u8>| #[trigger] v[ColumnFamily::Gspo].contains_key(k) implies row_readable(
                v,
                QuadEncoding::Gspo,
                k,
            ) by {
                assert(!unreadable(v, QuadEncoding::Gspo, k));
            }
        }
        Ok(())
    }

    /// Checks the stored data: that no index lacks the row of a quad that
    /// another index of its group holds; that the indexes of each group
    /// have the same number of rows; that every key decodes; that the set
    /// of graphs holds the graph name of every quad; and that the string
    /// table gives the texts of every quad. The first of these that fails
    /// gives the error. Nothing is changed.
    pub fn validate(&self) -> (r: Result<(), StorageError>)
        requires
            self.wf(),
        ensures
            r is Ok == valid(self@),
            r matches Err(e) ==> validation_error(self@, e),
    {
        proof {
            self.db.lemma_view();
            lemma_valid(self@);
        }
        match self.probe_indexes() {
            Ok(()) => {},
            Err(e) => {
                return Err(e);
            },
        }
        let dspo_size: usize = self.db.len(ColumnFamily::Dspo);
        if dspo_size != self.db.len(ColumnFamily::Dpos) || dspo_size != self.db.len(
            ColumnFamily::Dosp,
        ) {
            return Err(StorageError::Corruption(CorruptionError::TripleCountMismatch));
        }
        let gspo_size: usize = self.db.len(ColumnFamily::Gspo);
        if gspo_size != self.db.len(ColumnFamily::Gpos) || gspo_size != self.db.len(
            ColumnFamily::Gosp,
        ) || gspo_size != self.db.len(ColumnFamily::Spog) || gspo_size != self.db.len(
            ColumnFamily::Posg,
        ) || gspo_size != self.db.len(ColumnFamily::Ospg) {
            return Err(StorageError::Corruption(CorruptionError::QuadCountMismatch));
        }
        match self.decode_indexes() {
            Ok(()) => {},
            Err(e) => {
                return Err(e);
            },
        }
        match self.named_indexes() {
            Ok(()) => {},
            Err(e) => {
                return Err(e);
            },
        }
        self.texts_indexes()
    }
}

} // verus!
