//! Writes to the store: one quad at a time, every index of its group at
//! once.

use vstd::prelude::*;
use crate::backend::byte_strings;
use crate::backend::scan_result;
use crate::backend::ColumnFamily;
use crate::backend::ColumnFamilyDefinition;
use crate::backend::Db;
use crate::backend::DbView;
use crate::binary_encoder::decode_term;
use crate::binary_encoder::parse_quad;
use crate::binary_encoder::quad_key;
use crate::binary_encoder::term_bytes;
use crate::binary_encoder::write_gosp_quad;
use crate::binary_encoder::write_gpos_quad;
use crate::binary_encoder::write_gspo_quad;
use crate::binary_encoder::write_osp_quad;
use crate::binary_encoder::write_ospg_quad;
use crate::binary_encoder::write_pos_quad;
use crate::binary_encoder::write_posg_quad;
use crate::binary_encoder::write_spo_quad;
use crate::binary_encoder::write_spog_quad;
use crate::binary_encoder::write_term;
use crate::binary_encoder::QuadEncoding;
use crate::error::StorageError;
use crate::index::coherent;
use crate::index::index_coherent;
use crate::index::graph_row_coherent;
use crate::index::key_in;
use crate::index::lemma_coherent_row;
use crate::index::lemma_coherent_frame;
use crate::index::lemma_with_quad_coherent;
use crate::index::lemma_with_quad_tables;
use crate::index::lemma_without_quad_coherent;
use crate::index::lemma_without_quad_tables;
use crate::index::primary;
use crate::index::row_coherent;
use crate::index::view_wf;
use crate::index::with_graph;
use crate::index::with_quad;
use crate::index::without_quad;
use crate::model::BlankNode;
use crate::model::GraphName;
use crate::model::Literal;
use crate::model::NamedOrBlankNode;
use crate::model::Quad;
use crate::model::Term;
use crate::numeric_encoder::encode_graph_name;
use crate::numeric_encoder::encode_model_quad;
use crate::numeric_encoder::encode_named_or_blank_node;
use crate::numeric_encoder::lemma_encode_blank_node_wf;
use crate::numeric_encoder::lemma_encode_quad_wf;
use crate::numeric_encoder::EncodedQuad;
use crate::numeric_encoder::EncodedTerm;
use crate::numeric_encoder::StrHash;
use crate::storage::hash_key;
use crate::storage::Storage;
use crate::storage::StorageReader;
use crate::offsets::lemma_settled_effects;
use crate::offsets::lemma_settled_quad;
use crate::offsets::settled_quad;
use crate::strings::blank_node_strings;
use crate::strings::graph_name_strings;
use crate::strings::lemma_with_strings_concat;
use crate::strings::lemma_with_strings_grows;
use crate::strings::lemma_with_strings_one;
use crate::strings::literal_strings;
use crate::strings::long_text;
use crate::strings::named_or_blank_node_strings;
use crate::strings::term_strings;
use crate::strings::triple_strings;
use crate::strings::with_string;
use crate::strings::with_strings;

verus! {

/// The content with texts added to the string table.
pub open spec fn with_texts(v: DbView, texts: Seq<Seq<char>>) -> DbView {
    v.insert(ColumnFamily::Id2Str, with_strings(v[ColumnFamily::Id2Str], texts))
}

/// The texts that inserting a quad adds: those of its subject, predicate
/// and object, and those of its graph name if the set of graphs lacks it.
pub open spec fn inserted_strings(v: DbView, q: Quad) -> Seq<Seq<char>> {
    if q.graph_name is DefaultGraph || v[ColumnFamily::Graphs].contains_key(
        term_bytes(encode_graph_name(q.graph_name)),
    ) {
        triple_strings(q)
    } else {
        triple_strings(q) + graph_name_strings(q.graph_name)
    }
}

/// The content after a quad was inserted: as before if the quad is
/// stored; otherwise with its key in every index of its group, its graph
/// name in the set of graphs and its texts in the string table.
pub open spec fn insert_effect(v: DbView, q: Quad) -> DbView {
    let e = encode_model_quad(q);
    if key_in(v, primary(e), e) {
        v
    } else {
        with_texts(with_quad(v, e), inserted_strings(v, q))
    }
}

/// The content after a quad was removed: as before if the quad is not
/// stored; otherwise without its key in every index of its group.
pub open spec fn remove_effect(v: DbView, e: EncodedQuad) -> DbView {
    if key_in(v, primary(e), e) {
        without_quad(v, e)
    } else {
        v
    }
}

/// The content after a graph name was inserted.
pub open spec fn insert_graph_effect(v: DbView, g: NamedOrBlankNode) -> DbView {
    let key = term_bytes(encode_named_or_blank_node(g));
    if v[ColumnFamily::Graphs].contains_key(key) {
        v
    } else {
        with_texts(with_graph(v, key), named_or_blank_node_strings(g))
    }
}

/// The content after the quads of a list of keys of one index were
/// removed, first to last.
pub open spec fn without_keys(v: DbView, encoding: QuadEncoding, keys: Seq<Seq<u8>>) -> DbView
    decreases keys.len(),
{
    if keys.len() == 0 {
        v
    } else {
        remove_effect(
            without_keys(v, encoding, keys.drop_last()),
            parse_quad(encoding, keys.last())->Ok_0,
        )
    }
}

/// Whether every key of a list is the key of a well-formed quad of the
/// index.
pub open spec fn keys_decode(encoding: QuadEncoding, keys: Seq<Seq<u8>>) -> bool {
    forall|i: int|
        0 <= i < keys.len() ==> (parse_quad(encoding, #[trigger] keys[i]) matches Ok(q) && q.wf())
}

/// Inserting a quad keeps the indexes coherent, and removes no text from
/// the string table.
pub proof fn lemma_insert_effect(v: DbView, q: Quad)
    requires
        view_wf(v),
    ensures
        view_wf(insert_effect(v, q)),
        v[ColumnFamily::Id2Str].submap_of(insert_effect(v, q)[ColumnFamily::Id2Str]),
        coherent(v) ==> coherent(insert_effect(v, q)),
{
    let e = encode_model_quad(q);
    if !key_in(v, primary(e), e) {
        let v1 = with_quad(v, e);
        let texts = inserted_strings(v, q);
        lemma_with_quad_tables(v, e);
        lemma_with_strings_grows(v1[ColumnFamily::Id2Str], texts);
        lemma_texts_keep_coherence(v1, texts);
        if coherent(v) {
            let stored = settled_quad(q);
            let s = encode_model_quad(stored);
            lemma_settled_effects(v, q);
            lemma_settled_quad(q);
            lemma_encode_quad_wf(stored);
            assert(quad_key(primary(s), s) == quad_key(primary(e), e));
            lemma_with_quad_coherent(v, s);
            lemma_with_quad_tables(v, s);
            lemma_texts_keep_coherence(with_quad(v, s), inserted_strings(v, stored));
        }
    }
}

/// Adding texts to the string table leaves the indexes as they are.
pub proof fn lemma_texts_keep_coherence(v: DbView, texts: Seq<Seq<char>>)
    requires
        view_wf(v),
    ensures
        view_wf(with_texts(v, texts)),
        coherent(v) ==> coherent(with_texts(v, texts)),
{
    let v2 = with_texts(v, texts);
    lemma_with_strings_grows(v[ColumnFamily::Id2Str], texts);
    assert forall|cf: ColumnFamily| #[trigger] v2.contains_key(cf) && v2[cf].dom().finite() by {
        assert(v.contains_key(cf));
        assert(v[cf].dom().finite());
    }
    if coherent(v) {
        lemma_coherent_frame(v, v2);
    }
}

/// Removing a well-formed quad keeps the indexes coherent and leaves the
/// string table and the set of graphs as they are.
pub proof fn lemma_remove_effect(v: DbView, e: EncodedQuad)
    requires
        view_wf(v),
    ensures
        view_wf(remove_effect(v, e)),
        remove_effect(v, e)[ColumnFamily::Id2Str] == v[ColumnFamily::Id2Str],
        remove_effect(v, e)[ColumnFamily::Graphs] == v[ColumnFamily::Graphs],
        remove_effect(v, e)[ColumnFamily::Default] == v[ColumnFamily::Default],
        coherent(v) && e.wf() ==> coherent(remove_effect(v, e)),
{
    if key_in(v, primary(e), e) {
        lemma_without_quad_tables(v, e);
        if coherent(v) && e.wf() {
            lemma_without_quad_coherent(v, e);
        }
    }
}

/// Removing the well-formed quads of a list of keys keeps the indexes
/// coherent and leaves the string table and the set of graphs as they
/// are.
pub proof fn lemma_without_keys(v: DbView, encoding: QuadEncoding, keys: Seq<Seq<u8>>)
    requires
        view_wf(v),
    ensures
        view_wf(without_keys(v, encoding, keys)),
        without_keys(v, encoding, keys)[ColumnFamily::Id2Str] == v[ColumnFamily::Id2Str],
        without_keys(v, encoding, keys)[ColumnFamily::Graphs] == v[ColumnFamily::Graphs],
        without_keys(v, encoding, keys)[ColumnFamily::Default] == v[ColumnFamily::Default],
        coherent(v) && keys_decode(encoding, keys) ==> coherent(without_keys(v, encoding, keys)),
    decreases keys.len(),
{
    if keys.len() > 0 {
        let rest = keys.drop_last();
        lemma_without_keys(v, encoding, rest);
        let q = parse_quad(encoding, keys.last())->Ok_0;
        lemma_remove_effect(without_keys(v, encoding, rest), q);
        if keys_decode(encoding, keys) {
            assert forall|i: int| 0 <= i < rest.len() implies (parse_quad(
                encoding,
                #[trigger] rest[i],
            ) matches Ok(q) && q.wf()) by {
                assert(rest[i] == keys[i]);
            }
            assert(parse_quad(encoding, keys[keys.len() - 1]) matches Ok(q) && q.wf());
        }
    }
}

/// A writer: a copy of the content of a store that is changed apart and
/// then put in the place of the content of the store, or dropped.
#[derive(Debug)]
pub struct StorageWriter {
    buffer: Vec<u8>,
    db: Db,
}

impl View for StorageWriter {
    type V = DbView;

    closed spec fn view(&self) -> DbView {
        self.db@
    }
}

impl Storage {
    /// Starts a transaction: a writer on a copy of the store as it is now.
    pub fn transaction(&self) -> (writer: StorageWriter)
        requires
            self.wf(),
        ensures
            writer.wf(),
            writer@ == self@,
            writer.upkeep() == self.upkeep(),
    {
        StorageWriter { buffer: Vec::new(), db: self.backup() }
    }

    /// Ends a transaction: the content of the writer becomes that of the
    /// store, all at once.
    pub fn commit(&mut self, writer: StorageWriter)
        requires
            writer.wf(),
        ensures
            final(self).wf(),
            final(self)@ == writer@,
            final(self).upkeep() == writer.upkeep(),
    {
        match Storage::open_unchecked(writer.db) {
            storage => {
                *self = storage;
            },
        }
    }
}

impl StorageWriter {
    /// The invariant of a writer: that of its database.
    pub closed spec fn wf(&self) -> bool {
        self.db.wf()
    }

    /// What the database of the writer holds beside its content: the
    /// definitions of the column families that it was made with, and how
    /// often each column family was flushed and compacted, by the place
    /// of the family.
    pub closed spec fn upkeep(&self) -> (Seq<ColumnFamilyDefinition>, Seq<u64>, Seq<u64>) {
        (self.db.definitions(), self.db.flushes(), self.db.compactions())
    }

    /// The definitions of the column families that the database of the
    /// writer was made with.
    pub open spec fn definitions(&self) -> Seq<ColumnFamilyDefinition> {
        self.upkeep().0
    }

    /// How often a column family of the database of the writer was
    /// flushed.
    pub open spec fn flushed(&self, cf: ColumnFamily) -> u64 {
        self.upkeep().1[cf.spec_index()]
    }

    /// How often a column family of the database of the writer was
    /// compacted.
    pub open spec fn compacted(&self, cf: ColumnFamily) -> u64 {
        self.upkeep().2[cf.spec_index()]
    }

    /// Whether `after` has the definitions and the counts of flushes and
    /// compactions of this writer.
    pub open spec fn same_upkeep(&self, after: &StorageWriter) -> bool {
        after.upkeep() == self.upkeep()
    }

    /// A writer on a database.
    pub fn of_db(db: Db) -> (writer: StorageWriter)
        requires
            db.wf(),
        ensures
            writer.wf(),
            writer@ == db@,
            writer.upkeep() == (db.definitions(), db.flushes(), db.compactions()),
    {
        StorageWriter { buffer: Vec::new(), db }
    }

    /// The database of the writer.
    pub fn into_db(self) -> (db: Db)
        requires
            self.wf(),
        ensures
            db.wf(),
            db@ == self@,
            self.upkeep() == (db.definitions(), db.flushes(), db.compactions()),
    {
        self.db
    }

    /// Puts a table in the place of that of a column family.
    pub fn replace_table(&mut self, cf: ColumnFamily, table: crate::backend::Table)
        requires
            old(self).wf(),
            table.wf(),
        ensures
            final(self).wf(),
            old(self).same_upkeep(final(self)),
            final(self)@ == old(self)@.insert(cf, table@),
    {
        self.db.replace_table(cf, table);
    }

    /// The database of the writer.
    pub fn db(&self) -> (db: &Db)
        requires
            self.wf(),
        ensures
            db.wf(),
            db@ == self@,
            self.upkeep() == (db.definitions(), db.flushes(), db.compactions()),
    {
        &self.db
    }

    /// The content of a writer gives finitely many rows to each column
    /// family.
    pub proof fn lemma_view(&self)
        requires
            self.wf(),
        ensures
            view_wf(self@),
    {
        self.db.lemma_view();
    }

    /// A reader of the content as the writer has it now.
    pub fn reader(&self) -> (reader: StorageReader)
        requires
            self.wf(),
        ensures
            reader.wf(),
            reader@ == self@,
    {
        StorageReader::of_db(self.db.snapshot())
    }

    /// Adds a text to the string table unless the table has a row for its
    /// hash.
    fn insert_str(&mut self, value: &str)
        requires
            old(self).wf(),
        ensures
            final(self).wf(),
            old(self).same_upkeep(final(self)),
            final(self)@ == old(self)@.insert(
                ColumnFamily::Id2Str,
                with_string(old(self)@[ColumnFamily::Id2Str], value@),
            ),
    {
        let key = hash_key(&StrHash::new(value));
        if self.db.contains_key(ColumnFamily::Id2Str, key.as_slice()) {
            proof {
                self.lemma_view();
                assert(self@ =~= old(self)@.insert(
                    ColumnFamily::Id2Str,
                    old(self)@[ColumnFamily::Id2Str],
                ));
            }
            return ;
        }
        self.db.insert(ColumnFamily::Id2Str, key.as_slice(), value.as_bytes());
    }

    /// Adds a text to the string table if it is too long to be held
    /// inline.
    fn insert_long_text(&mut self, value: &str)
        requires
            old(self).wf(),
        ensures
            final(self).wf(),
            old(self).same_upkeep(final(self)),
            final(self)@ == with_texts(old(self)@, long_text(value@)),
    {
        proof {
            lemma_with_strings_one(self@[ColumnFamily::Id2Str], value@);
        }
        if value.as_bytes().len() > 15 {
            self.insert_str(value);
        } else {
            proof {
                self.lemma_view();
                assert(self@ =~= with_texts(self@, long_text(value@)));
            }
        }
    }

    /// Adds the texts of a blank node to the string table.
    fn insert_blank_node(&mut self, node: &BlankNode)
        requires
            old(self).wf(),
        ensures
            final(self).wf(),
            old(self).same_upkeep(final(self)),
            final(self)@ == with_texts(old(self)@, blank_node_strings(*node)),
    {
        match node {
            BlankNode::Named { id } => self.insert_long_text(id.as_str()),
            BlankNode::Anonymous { .. } => {
                proof {
                    self.lemma_view();
                    lemma_with_strings_one(self@[ColumnFamily::Id2Str], Seq::empty());
                    assert(self@ =~= with_texts(self@, blank_node_strings(*node)));
                }
            },
        }
    }

    /// Adds the texts of a literal to the string table.
    fn insert_literal(&mut self, literal: &Literal)
        requires
            old(self).wf(),
        ensures
            final(self).wf(),
            old(self).same_upkeep(final(self)),
            final(self)@ == with_texts(old(self)@, literal_strings(*literal)),
    {
        let ghost table = self@[ColumnFamily::Id2Str];
        match literal {
            Literal::Simple { value } => self.insert_long_text(value.as_str()),
            Literal::LanguageTagged { value, language } => {
                self.insert_long_text(value.as_str());
                self.insert_long_text(language.as_str());
                proof {
                    lemma_with_strings_concat(table, long_text(value@), long_text(language@));
                    assert(self@ =~= with_texts(old(self)@, literal_strings(*literal)));
                }
            },
            Literal::Typed { value, datatype } => {
                self.insert_str(datatype.iri.as_str());
                self.insert_long_text(value.as_str());
                proof {
                    lemma_with_strings_one(table, datatype.iri@);
                    lemma_with_strings_concat(table, seq![datatype.iri@], long_text(value@));
                    assert(self@ =~= with_texts(old(self)@, literal_strings(*literal)));
                }
            },
            _ => {
                proof {
                    self.lemma_view();
                    lemma_with_strings_one(table, Seq::empty());
                    assert(self@ =~= with_texts(self@, literal_strings(*literal)));
                }
            },
        }
    }

    /// Adds the texts of a term to the string table.
    fn insert_term(&mut self, term: &Term)
        requires
            old(self).wf(),
        ensures
            final(self).wf(),
            old(self).same_upkeep(final(self)),
            final(self)@ == with_texts(old(self)@, term_strings(*term)),
        decreases *term,
    {
        let ghost table = self@[ColumnFamily::Id2Str];
        match term {
            Term::NamedNode(n) => {
                self.insert_str(n.iri.as_str());
                proof {
                    lemma_with_strings_one(table, n.iri@);
                }
            },
            Term::BlankNode(b) => self.insert_blank_node(b),
            Term::Literal(l) => self.insert_literal(l),
            Term::Triple(triple) => {
                self.insert_term(&triple.subject);
                self.insert_term(&triple.predicate);
                self.insert_term(&triple.object);
                proof {
                    let a = term_strings(triple.subject);
                    let b = term_strings(triple.predicate);
                    let c = term_strings(triple.object);
                    lemma_with_strings_concat(table, a, b);
                    lemma_with_strings_concat(table, a + b, c);
                    assert(self@ =~= with_texts(old(self)@, term_strings(*term)));
                }
            },
        }
    }

    /// Adds the texts of the name of a graph to the string table.
    fn insert_graph_name(&mut self, graph_name: &GraphName)
        requires
            old(self).wf(),
        ensures
            final(self).wf(),
            old(self).same_upkeep(final(self)),
            final(self)@ == with_texts(old(self)@, graph_name_strings(*graph_name)),
    {
        let ghost table = self@[ColumnFamily::Id2Str];
        match graph_name {
            GraphName::NamedNode(n) => {
                self.insert_str(n.iri.as_str());
                proof {
                    lemma_with_strings_one(table, n.iri@);
                }
            },
            GraphName::BlankNode(b) => self.insert_blank_node(b),
            GraphName::DefaultGraph => {
                proof {
                    self.lemma_view();
                    lemma_with_strings_one(table, Seq::empty());
                    assert(self@ =~= with_texts(self@, graph_name_strings(*graph_name)));
                }
            },
        }
    }
}

impl StorageWriter {
    /// Inserts a quad. Gives `true` if the quad was not stored before.
#[verifier::rlimit(30)]
    pub fn insert(&mut self, quad: &Quad) -> (r: Result<bool, StorageError>)
        requires
            old(self).wf(),
        ensures
            final(self).wf(),
            old(self).same_upkeep(final(self)),
            r == Ok::<bool, StorageError>(
                !key_in(old(self)@, primary(encode_model_quad(*quad)), encode_model_quad(*quad)),
            ),
            final(self)@ == insert_effect(old(self)@, *quad),
            old(self)@[ColumnFamily::Id2Str].submap_of(final(self)@[ColumnFamily::Id2Str]),
            coherent(old(self)@) ==> coherent(final(self)@),
            crate::laws::texts_present(old(self)@) ==> crate::laws::texts_present(final(self)@),
    {
        let encoded = EncodedQuad::from_quad(quad);
        let ghost v = self@;
        proof {
            self.lemma_view();
            lemma_insert_effect(v, *quad);
            lemma_with_quad_tables(v, encoded);
            if crate::laws::texts_present(v) {
                lemma_settled_effects(v, *quad);
                crate::laws::lemma_insert_texts_present(v, settled_quad(*quad));
            }
        }
        self.buffer.clear();
        let result = if quad.graph_name.is_default_graph() {
            write_spo_quad(&mut self.buffer, &encoded);
            proof {
                assert(self.buffer@ =~= quad_key(QuadEncoding::Dspo, encoded));
            }
            if self.db.contains_key(ColumnFamily::Dspo, self.buffer.as_slice()) {
                false
            } else {
                self.db.insert_empty(ColumnFamily::Dspo, self.buffer.as_slice());

                self.buffer.clear();
                write_pos_quad(&mut self.buffer, &encoded);
                proof {
                    assert(self.buffer@ =~= quad_key(QuadEncoding::Dpos, encoded));
                }
                self.db.insert_empty(ColumnFamily::Dpos, self.buffer.as_slice());

                self.buffer.clear();
                write_osp_quad(&mut self.buffer, &encoded);
                proof {
                    assert(self.buffer@ =~= quad_key(QuadEncoding::Dosp, encoded));
                }
                self.db.insert_empty(ColumnFamily::Dosp, self.buffer.as_slice());
                proof {
                    assert(self@ =~= with_quad(v, encoded));
                }
                let ghost table = self@[ColumnFamily::Id2Str];
                self.insert_term(&quad.subject);
                self.insert_term(&quad.predicate);
                self.insert_term(&quad.object);
                proof {
                    let a = term_strings(quad.subject);
                    let b = term_strings(quad.predicate);
                    let c = term_strings(quad.object);
                    lemma_with_strings_concat(table, a, b);
                    lemma_with_strings_concat(table, a + b, c);
                    assert(self@ =~= insert_effect(v, *quad));
                }
                true
            }
        } else {
            write_spog_quad(&mut self.buffer, &encoded);
            proof {
                assert(self.buffer@ =~= quad_key(QuadEncoding::Spog, encoded));
            }
            if self.db.contains_key(ColumnFamily::Spog, self.buffer.as_slice()) {
                false
            } else {
                self.db.insert_empty(ColumnFamily::Spog, self.buffer.as_slice());

                self.buffer.clear();
                write_posg_quad(&mut self.buffer, &encoded);
                proof {
                    assert(self.buffer@ =~= quad_key(QuadEncoding::Posg, encoded));
                }
                self.db.insert_empty(ColumnFamily::Posg, self.buffer.as_slice());

                self.buffer.clear();
                write_ospg_quad(&mut self.buffer, &encoded);
                proof {
                    assert(self.buffer@ =~= quad_key(QuadEncoding::Ospg, encoded));
                }
                self.db.insert_empty(ColumnFamily::Ospg, self.buffer.as_slice());

                self.buffer.clear();
                write_gspo_quad(&mut self.buffer, &encoded);
                proof {
                    assert(self.buffer@ =~= quad_key(QuadEncoding::Gspo, encoded));
                }
                self.db.insert_empty(ColumnFamily::Gspo, self.buffer.as_slice());

                self.buffer.clear();
                write_gpos_quad(&mut self.buffer, &encoded);
                proof {
                    assert(self.buffer@ =~= quad_key(QuadEncoding::Gpos, encoded));
                }
                self.db.insert_empty(ColumnFamily::Gpos, self.buffer.as_slice());

                self.buffer.clear();
                write_gosp_quad(&mut self.buffer, &encoded);
                proof {
                    assert(self.buffer@ =~= quad_key(QuadEncoding::Gosp, encoded));
                }
                self.db.insert_empty(ColumnFamily::Gosp, self.buffer.as_slice());

                let ghost table = self@[ColumnFamily::Id2Str];
                self.insert_term(&quad.subject);
                self.insert_term(&quad.predicate);
                self.insert_term(&quad.object);
                proof {
                    let a = term_strings(quad.subject);
                    let b = term_strings(quad.predicate);
                    let c = term_strings(quad.object);
                    lemma_with_strings_concat(table, a, b);
                    lemma_with_strings_concat(table, a + b, c);
                }

                self.buffer.clear();
                write_term(&mut self.buffer, &encoded.graph_name);
                proof {
                    assert(self.buffer@ =~= term_bytes(encoded.graph_name));
                }
                if !self.db.contains_key(ColumnFamily::Graphs, self.buffer.as_slice()) {
                    self.db.insert_empty(ColumnFamily::Graphs, self.buffer.as_slice());
                    self.insert_graph_name(&quad.graph_name);
                    proof {
                        lemma_with_strings_concat(
                            table,
                            triple_strings(*quad),
                            graph_name_strings(quad.graph_name),
                        );
                    }
                }
                proof {
                    assert(self@ =~= insert_effect(v, *quad));
                }
                true
            }
        };
        Ok(result)
    }

    /// Inserts a graph name into the set of graphs. Gives `true` if the
    /// set lacked it.
    pub fn insert_named_graph(&mut self, graph_name: &NamedOrBlankNode) -> (r: Result<
        bool,
        StorageError,
    >)
        requires
            old(self).wf(),
        ensures
            final(self).wf(),
            old(self).same_upkeep(final(self)),
            r == Ok::<bool, StorageError>(
                !old(self)@[ColumnFamily::Graphs].contains_key(
                    term_bytes(encode_named_or_blank_node(*graph_name)),
                ),
            ),
            final(self)@ == insert_graph_effect(old(self)@, *graph_name),
            old(self)@[ColumnFamily::Id2Str].submap_of(final(self)@[ColumnFamily::Id2Str]),
            coherent(old(self)@) ==> coherent(final(self)@),
            crate::laws::texts_present(old(self)@) ==> crate::laws::texts_present(final(self)@),
    {
        let encoded_graph_name = EncodedTerm::from_named_or_blank_node(graph_name);
        let ghost v = self@;
        proof {
            self.lemma_view();
            lemma_insert_graph_effect(v, *graph_name);
            if crate::laws::texts_present(v) {
                crate::laws::lemma_insert_graph_texts_present(v, *graph_name);
            }
        }
        self.buffer.clear();
        write_term(&mut self.buffer, &encoded_graph_name);
        proof {
            assert(self.buffer@ =~= term_bytes(encoded_graph_name));
        }
        let result = if self.db.contains_key(ColumnFamily::Graphs, self.buffer.as_slice()) {
            false
        } else {
            self.db.insert_empty(ColumnFamily::Graphs, self.buffer.as_slice());
            let ghost table = self@[ColumnFamily::Id2Str];
            match graph_name {
                NamedOrBlankNode::NamedNode(n) => {
                    self.insert_str(n.iri.as_str());
                    proof {
                        lemma_with_strings_one(table, n.iri@);
                    }
                },
                NamedOrBlankNode::BlankNode(b) => self.insert_blank_node(b),
            }
            proof {
                assert(self@ =~= insert_graph_effect(v, *graph_name));
            }
            true
        };
        Ok(result)
    }

    /// Removes a quad. Gives `true` if the quad was stored. The string
    /// table and the set of graphs stay as they are.
    pub fn remove(&mut self, quad: &Quad) -> (r: Result<bool, StorageError>)
        requires
            old(self).wf(),
        ensures
            final(self).wf(),
            old(self).same_upkeep(final(self)),
            r == Ok::<bool, StorageError>(
                key_in(old(self)@, primary(encode_model_quad(*quad)), encode_model_quad(*quad)),
            ),
            final(self)@ == remove_effect(old(self)@, encode_model_quad(*quad)),
            final(self)@[ColumnFamily::Id2Str] == old(self)@[ColumnFamily::Id2Str],
            final(self)@[ColumnFamily::Graphs] == old(self)@[ColumnFamily::Graphs],
            coherent(old(self)@) ==> coherent(final(self)@),
            crate::laws::texts_present(old(self)@) ==> crate::laws::texts_present(final(self)@),
    {
        proof {
            self.lemma_view();
            lemma_settled_effects(self@, *quad);
            lemma_encode_quad_wf(settled_quad(*quad));
            lemma_remove_effect(self@, encode_model_quad(settled_quad(*quad)));
        }
        self.remove_encoded(&EncodedQuad::from_quad(quad))
    }

    /// Removes an encoded quad. Gives `true` if the quad was stored.
#[verifier::rlimit(30)]
    pub fn remove_encoded(&mut self, quad: &EncodedQuad) -> (r: Result<bool, StorageError>)
        requires
            old(self).wf(),
        ensures
            final(self).wf(),
            old(self).same_upkeep(final(self)),
            r == Ok::<bool, StorageError>(key_in(old(self)@, primary(*quad), *quad)),
            final(self)@ == remove_effect(old(self)@, *quad),
            final(self)@[ColumnFamily::Id2Str] == old(self)@[ColumnFamily::Id2Str],
            final(self)@[ColumnFamily::Graphs] == old(self)@[ColumnFamily::Graphs],
            coherent(old(self)@) && quad.wf() ==> coherent(final(self)@),
            crate::laws::texts_present(old(self)@) ==> crate::laws::texts_present(final(self)@),
    {
        let ghost v = self@;
        proof {
            self.lemma_view();
            lemma_remove_effect(v, *quad);
            if crate::laws::texts_present(v) {
                crate::laws::lemma_remove_keeps_texts(v, *quad);
            }
        }
        self.buffer.clear();
        let result = if quad.graph_name.is_default_graph() {
            write_spo_quad(&mut self.buffer, quad);
            proof {
                assert(self.buffer@ =~= quad_key(QuadEncoding::Dspo, *quad));
            }
            if self.db.contains_key(ColumnFamily::Dspo, self.buffer.as_slice()) {
                self.db.remove(ColumnFamily::Dspo, self.buffer.as_slice());

                self.buffer.clear();
                write_pos_quad(&mut self.buffer, quad);
                proof {
                    assert(self.buffer@ =~= quad_key(QuadEncoding::Dpos, *quad));
                }
                self.db.remove(ColumnFamily::Dpos, self.buffer.as_slice());

                self.buffer.clear();
                write_osp_quad(&mut self.buffer, quad);
                proof {
                    assert(self.buffer@ =~= quad_key(QuadEncoding::Dosp, *quad));
                }
                self.db.remove(ColumnFamily::Dosp, self.buffer.as_slice());
                proof {
                    assert(self@ =~= without_quad(v, *quad));
                }
                true
            } else {
                false
            }
        } else {
            write_spog_quad(&mut self.buffer, quad);
            proof {
                assert(self.buffer@ =~= quad_key(QuadEncoding::Spog, *quad));
            }
            if self.db.contains_key(ColumnFamily::Spog, self.buffer.as_slice()) {
                self.db.remove(ColumnFamily::Spog, self.buffer.as_slice());

                self.buffer.clear();
                write_posg_quad(&mut self.buffer, quad);
                proof {
                    assert(self.buffer@ =~= quad_key(QuadEncoding::Posg, *quad));
                }
                self.db.remove(ColumnFamily::Posg, self.buffer.as_slice());

                self.buffer.clear();
                write_ospg_quad(&mut self.buffer, quad);
                proof {
                    assert(self.buffer@ =~= quad_key(QuadEncoding::Ospg, *quad));
                }
                self.db.remove(ColumnFamily::Ospg, self.buffer.as_slice());

                self.buffer.clear();
                write_gspo_quad(&mut self.buffer, quad);
                proof {
                    assert(self.buffer@ =~= quad_key(QuadEncoding::Gspo, *quad));
                }
                self.db.remove(ColumnFamily::Gspo, self.buffer.as_slice());

                self.buffer.clear();
                write_gpos_quad(&mut self.buffer, quad);
                proof {
                    assert(self.buffer@ =~= quad_key(QuadEncoding::Gpos, *quad));
                }
                self.db.remove(ColumnFamily::Gpos, self.buffer.as_slice());

                self.buffer.clear();
                write_gosp_quad(&mut self.buffer, quad);
                proof {
                    assert(self.buffer@ =~= quad_key(QuadEncoding::Gosp, *quad));
                }
                self.db.remove(ColumnFamily::Gosp, self.buffer.as_slice());
                proof {
                    assert(self@ =~= without_quad(v, *quad));
                }
                true
            } else {
                false
            }
        };
        Ok(result)
    }
}

/// Inserting a graph name keeps the indexes coherent and removes no text
/// from the string table.
#[verifier::rlimit(30)]
pub proof fn lemma_insert_graph_effect(v: DbView, g: NamedOrBlankNode)
    requires
        view_wf(v),
    ensures
        view_wf(insert_graph_effect(v, g)),
        v[ColumnFamily::Id2Str].submap_of(insert_graph_effect(v, g)[ColumnFamily::Id2Str]),
        coherent(v) ==> coherent(insert_graph_effect(v, g)),
{
    let key = term_bytes(encode_named_or_blank_node(g));
    if !v[ColumnFamily::Graphs].contains_key(key) {
        let v1 = with_graph(v, key);
        let texts = named_or_blank_node_strings(g);
        assert forall|cf: ColumnFamily| #[trigger] v1.contains_key(cf) && v1[cf].dom().finite() by {
            assert(v.contains_key(cf));
            assert(v[cf].dom().finite());
        }
        lemma_with_strings_grows(v1[ColumnFamily::Id2Str], texts);
        lemma_texts_keep_coherence(v1, texts);
        if coherent(v) {
            match g {
                NamedOrBlankNode::BlankNode(b) => {
                    lemma_encode_blank_node_wf(b);
                },
                _ => {},
            }
            crate::index::lemma_graph_row(encode_named_or_blank_node(g));
            lemma_coherent_frame(v, v1);
        }
    }
}

/// Whether every key of a list decodes in the order of an index.
pub open spec fn all_parse(encoding: QuadEncoding, keys: Seq<Seq<u8>>) -> bool {
    forall|i: int| 0 <= i < keys.len() ==> parse_quad(encoding, #[trigger] keys[i]) is Ok
}

/// The keys of a coherent index decode to well-formed quads.
pub proof fn lemma_scan_decodes(v: DbView, encoding: QuadEncoding, prefix: Seq<u8>, keys: Seq<Seq<u8>>)
    requires
        coherent(v),
        scan_result(v[encoding.spec_family()], prefix, keys),
    ensures
        keys_decode(encoding, keys),
        all_parse(encoding, keys),
{
    assert(index_coherent(v, encoding));
    assert forall|i: int| 0 <= i < keys.len() implies (parse_quad(
        encoding,
        #[trigger] keys[i],
    ) matches Ok(q) && q.wf()) by {
        assert(keys.contains(keys[i]));
        assert(v[encoding.spec_family()].contains_key(keys[i]));
        assert(row_coherent(v, encoding, keys[i]));
    }
}

/// The content after one graph was cleared: without the quads of the keys
/// of the index `gspo` that start with the graph name, if the set of
/// graphs holds the name; for the default graph, without the quads of the
/// index `dspo`.
pub open spec fn clear_graph_effect(v: DbView, g: EncodedTerm, keys: Seq<Seq<u8>>) -> DbView {
    if g is DefaultGraph {
        without_keys(v, QuadEncoding::Dspo, keys)
    } else if v[ColumnFamily::Graphs].contains_key(term_bytes(g)) {
        without_keys(v, QuadEncoding::Gspo, keys)
    } else {
        v
    }
}

/// Whether `keys` are the keys that clearing a graph reads.
pub open spec fn graph_keys(v: DbView, g: EncodedTerm, keys: Seq<Seq<u8>>) -> bool {
    if g is DefaultGraph {
        scan_result(v[ColumnFamily::Dspo], Seq::<u8>::empty(), keys)
    } else {
        scan_result(v[ColumnFamily::Gspo], term_bytes(g), keys)
    }
}

/// The order in which the keys that clearing a graph reads are decoded.
pub open spec fn graph_order(g: EncodedTerm) -> QuadEncoding {
    if g is DefaultGraph {
        QuadEncoding::Dspo
    } else {
        QuadEncoding::Gspo
    }
}

impl StorageWriter {
    /// Removes the quad of each key of a list, first to last. Stops at the
    /// first key that does not decode.
    fn remove_keys(&mut self, keys: &Vec<Vec<u8>>, encoding: QuadEncoding) -> (r: Result<
        (),
        StorageError,
    >)
        requires
            old(self).wf(),
        ensures
            final(self).wf(),
            old(self).same_upkeep(final(self)),
            r is Ok == all_parse(encoding, byte_strings(keys@)),
            r is Ok ==> final(self)@ == without_keys(old(self)@, encoding, byte_strings(keys@)),
            final(self)@[ColumnFamily::Id2Str] == old(self)@[ColumnFamily::Id2Str],
            final(self)@[ColumnFamily::Graphs] == old(self)@[ColumnFamily::Graphs],
            final(self)@[ColumnFamily::Default] == old(self)@[ColumnFamily::Default],
            rows_within(final(self)@, old(self)@),
    {
        let ghost all = byte_strings(keys@);
        let mut i: usize = 0;
        while i < keys.len()
            invariant
                i <= keys@.len(),
                self.wf(),
                rows_within(self@, old(self)@),
                old(self).same_upkeep(self),
                all == byte_strings(keys@),
                all_parse(encoding, all.subrange(0, i as int)),
                self@ == without_keys(old(self)@, encoding, all.subrange(0, i as int)),
                self@[ColumnFamily::Id2Str] == old(self)@[ColumnFamily::Id2Str],
                self@[ColumnFamily::Graphs] == old(self)@[ColumnFamily::Graphs],
                self@[ColumnFamily::Default] == old(self)@[ColumnFamily::Default],
            decreases keys@.len() - i,
        {
            let ghost part = all.subrange(0, i as int);
            let ghost next = all.subrange(0, i + 1);
            proof {
                assert(all[i as int] == keys@[i as int]@);
                assert(next.drop_last() =~= part);
                assert(next.last() == all[i as int]);
            }
            let quad = match encoding.decode(keys[i].as_slice()) {
                Ok(quad) => quad,
                Err(e) => {
                    proof {
                        assert(!all_parse(encoding, all));
                    }
                    return Err(e);
                },
            };
            let ghost before_removal = self@;
            proof {
                self.lemma_view();
                lemma_remove_effect_within(before_removal, quad);
            }
            let removed = self.remove_encoded(&quad);
            proof {
                lemma_rows_within_twice(self@, before_removal, old(self)@);
                assert forall|j: int| 0 <= j < next.len() implies parse_quad(
                    encoding,
                    #[trigger] next[j],
                ) is Ok by {
                    if j < i {
                        assert(part[j] == next[j]);
                    }
                }
            }
            i = i + 1;
        }
        proof {
            assert(all.subrange(0, keys@.len() as int) =~= all);
        }
        Ok(())
    }

    /// Removes the quads of a graph. The graph name stays in the set of
    /// graphs.
    pub fn clear_graph(&mut self, graph_name: &GraphName) -> (r: Result<(), StorageError>)
        requires
            old(self).wf(),
        ensures
            final(self).wf(),
            old(self).same_upkeep(final(self)),
            rows_within(final(self)@, old(self)@),
            coherent(old(self)@) ==> r is Ok && coherent(final(self)@) && final(self)@
                == crate::graph_laws::graph_cleared(old(self)@, encode_graph_name(*graph_name)),
            r is Ok ==> exists|keys: Seq<Seq<u8>>|
                graph_keys(old(self)@, encode_graph_name(*graph_name), keys) && #[trigger]
                clear_graph_effect(old(self)@, encode_graph_name(*graph_name), keys) == final(self)@,
            final(self)@[ColumnFamily::Id2Str] == old(self)@[ColumnFamily::Id2Str],
            final(self)@[ColumnFamily::Graphs] == old(self)@[ColumnFamily::Graphs],
            final(self)@[ColumnFamily::Default] == old(self)@[ColumnFamily::Default],
    {
        let encoded = EncodedTerm::from_graph_name(graph_name);
        proof {
            match graph_name {
                GraphName::BlankNode(b) => {
                    lemma_encode_blank_node_wf(*b);
                },
                _ => {},
            }
            assert(encoded.wf() || encoded is DefaultGraph);
        }
        self.clear_encoded_graph(&encoded)
    }

    /// Removes the quads of the graph of an encoded name.
    pub fn clear_encoded_graph(&mut self, graph_name: &EncodedTerm) -> (r: Result<
        (),
        StorageError,
    >)
        requires
            old(self).wf(),
        ensures
            final(self).wf(),
            old(self).same_upkeep(final(self)),
            rows_within(final(self)@, old(self)@),
            coherent(old(self)@) ==> r is Ok && coherent(final(self)@),
            coherent(old(self)@) && (graph_name.wf() || *graph_name is DefaultGraph) ==> final(self)@
                == crate::graph_laws::graph_cleared(old(self)@, *graph_name),
            r is Ok ==> exists|keys: Seq<Seq<u8>>|
                graph_keys(old(self)@, *graph_name, keys) && #[trigger] clear_graph_effect(
                    old(self)@,
                    *graph_name,
                    keys,
                ) == final(self)@,
            final(self)@[ColumnFamily::Id2Str] == old(self)@[ColumnFamily::Id2Str],
            final(self)@[ColumnFamily::Graphs] == old(self)@[ColumnFamily::Graphs],
            final(self)@[ColumnFamily::Default] == old(self)@[ColumnFamily::Default],
    {
        let ghost v = self@;
        proof {
            self.lemma_view();
        }
        if graph_name.is_default_graph() {
            let keys = self.db.iter(ColumnFamily::Dspo);
            proof {
                lemma_without_keys(v, QuadEncoding::Dspo, byte_strings(keys@));
                if coherent(v) {
                    lemma_scan_decodes(v, QuadEncoding::Dspo, Seq::empty(), byte_strings(keys@));
                }
            }
            let r = self.remove_keys(&keys, QuadEncoding::Dspo);
            proof {
                if r is Ok {
                    assert(graph_keys(v, *graph_name, byte_strings(keys@)));
                    assert(clear_graph_effect(v, *graph_name, byte_strings(keys@)) == self@);
                    if coherent(v) {
                        crate::graph_laws::lemma_clear_graph(v, *graph_name, byte_strings(keys@));
                    }
                }
            }
            r
        } else {
            self.buffer.clear();
            write_term(&mut self.buffer, graph_name);
            proof {
                assert(self.buffer@ =~= term_bytes(*graph_name));
            }
            let keys = self.db.scan_prefix(ColumnFamily::Gspo, self.buffer.as_slice());
            if self.db.contains_key(ColumnFamily::Graphs, self.buffer.as_slice()) {
                proof {
                    lemma_without_keys(v, QuadEncoding::Gspo, byte_strings(keys@));
                    if coherent(v) {
                        lemma_scan_decodes(
                            v,
                            QuadEncoding::Gspo,
                            term_bytes(*graph_name),
                            byte_strings(keys@),
                        );
                    }
                }
                let r = self.remove_keys(&keys, QuadEncoding::Gspo);
                proof {
                    if r is Ok {
                        assert(graph_keys(v, *graph_name, byte_strings(keys@)));
                        assert(clear_graph_effect(v, *graph_name, byte_strings(keys@)) == self@);
                        if coherent(v) && graph_name.wf() {
                            crate::graph_laws::lemma_clear_graph(
                                v,
                                *graph_name,
                                byte_strings(keys@),
                            );
                        }
                    }
                }
                r
            } else {
                proof {
                    assert(graph_keys(v, *graph_name, byte_strings(keys@)));
                    assert(clear_graph_effect(v, *graph_name, byte_strings(keys@)) == self@);
                }
                Ok(())
            }
        }
    }

    /// Removes the quads of all named graphs. The set of graphs stays as
    /// it is. Coherent indexes are left with the quads of the default graph
    /// alone.
    pub fn clear_all_named_graphs(&mut self) -> (r: Result<(), StorageError>)
        requires
            old(self).wf(),
        ensures
            final(self).wf(),
            old(self).same_upkeep(final(self)),
            rows_within(final(self)@, old(self)@),
            coherent(old(self)@) ==> r is Ok && coherent(final(self)@) && no_named_quads(
                final(self)@,
            )
                && final(self)@[ColumnFamily::Dspo] == old(self)@[ColumnFamily::Dspo]
                && final(self)@[ColumnFamily::Dpos] == old(self)@[ColumnFamily::Dpos]
                && final(self)@[ColumnFamily::Dosp] == old(self)@[ColumnFamily::Dosp],
            r is Ok ==> exists|keys: Seq<Seq<u8>>|
                scan_result(old(self)@[ColumnFamily::Gspo], Seq::<u8>::empty(), keys)
                    && #[trigger] without_keys(old(self)@, QuadEncoding::Gspo, keys) == final(self)@,
            final(self)@[ColumnFamily::Id2Str] == old(self)@[ColumnFamily::Id2Str],
            final(self)@[ColumnFamily::Graphs] == old(self)@[ColumnFamily::Graphs],
            final(self)@[ColumnFamily::Default] == old(self)@[ColumnFamily::Default],
    {
        let ghost v = self@;
        let keys = self.db.iter(ColumnFamily::Gspo);
        proof {
            self.lemma_view();
            lemma_without_keys(v, QuadEncoding::Gspo, byte_strings(keys@));
            if coherent(v) {
                lemma_scan_decodes(v, QuadEncoding::Gspo, Seq::empty(), byte_strings(keys@));
                lemma_all_removed(v, QuadEncoding::Gspo, byte_strings(keys@));
                assert(QuadEncoding::Dspo.spec_family() == ColumnFamily::Dspo);
                assert(QuadEncoding::Dpos.spec_family() == ColumnFamily::Dpos);
                assert(QuadEncoding::Dosp.spec_family() == ColumnFamily::Dosp);
            }
        }
        let r = self.remove_keys(&keys, QuadEncoding::Gspo);
        proof {
            if r is Ok {
                assert(without_keys(v, QuadEncoding::Gspo, byte_strings(keys@)) == self@);
            }
        }
        r
    }

    /// Removes the quads of all graphs: those of the default graph, then
    /// those of the named graphs. The set of graphs stays as it is.
    /// Coherent indexes are left without quads.
#[verifier::rlimit(30)]
    pub fn clear_all_graphs(&mut self) -> (r: Result<(), StorageError>)
        requires
            old(self).wf(),
        ensures
            final(self).wf(),
            old(self).same_upkeep(final(self)),
            rows_within(final(self)@, old(self)@),
            coherent(old(self)@) ==> r is Ok && coherent(final(self)@) && no_named_quads(
                final(self)@,
            ) && no_default_quads(final(self)@),
            r is Ok ==> exists|unnamed: Seq<Seq<u8>>, named: Seq<Seq<u8>>|
                scan_result(old(self)@[ColumnFamily::Dspo], Seq::<u8>::empty(), unnamed)
                    && scan_result(old(self)@[ColumnFamily::Gspo], Seq::<u8>::empty(), named)
                    && #[trigger] without_keys(
                    without_keys(old(self)@, QuadEncoding::Dspo, unnamed),
                    QuadEncoding::Gspo,
                    named,
                ) == final(self)@,
            final(self)@[ColumnFamily::Id2Str] == old(self)@[ColumnFamily::Id2Str],
            final(self)@[ColumnFamily::Graphs] == old(self)@[ColumnFamily::Graphs],
            final(self)@[ColumnFamily::Default] == old(self)@[ColumnFamily::Default],
    {
        let ghost v = self@;
        let unnamed = self.db.iter(ColumnFamily::Dspo);
        let named = self.db.iter(ColumnFamily::Gspo);
        proof {
            self.lemma_view();
            lemma_without_keys(v, QuadEncoding::Dspo, byte_strings(unnamed@));
            if coherent(v) {
                lemma_scan_decodes(v, QuadEncoding::Dspo, Seq::empty(), byte_strings(unnamed@));
                lemma_scan_decodes(v, QuadEncoding::Gspo, Seq::empty(), byte_strings(named@));
                lemma_all_removed(v, QuadEncoding::Dspo, byte_strings(unnamed@));
                assert(QuadEncoding::Gspo.spec_family() == ColumnFamily::Gspo);
            }
        }
        self.remove_keys(&unnamed, QuadEncoding::Dspo)?;
        let ghost v1 = self@;
        proof {
            lemma_without_keys(v1, QuadEncoding::Gspo, byte_strings(named@));
            if coherent(v) {
                assert(v1[ColumnFamily::Gspo] == v[ColumnFamily::Gspo]);
                lemma_all_removed(v1, QuadEncoding::Gspo, byte_strings(named@));
                assert(QuadEncoding::Dspo.spec_family() == ColumnFamily::Dspo);
                assert(QuadEncoding::Dpos.spec_family() == ColumnFamily::Dpos);
                assert(QuadEncoding::Dosp.spec_family() == ColumnFamily::Dosp);
            }
        }
        let r = self.remove_keys(&named, QuadEncoding::Gspo);
        proof {
            if r is Ok {
                assert(without_keys(
                    without_keys(v, QuadEncoding::Dspo, byte_strings(unnamed@)),
                    QuadEncoding::Gspo,
                    byte_strings(named@),
                ) == self@);
            }
        }
        r
    }
}

/// After the quads of all keys of a coherent index were removed, the
/// group of the index has no rows, and the other group has the rows that
/// it had.
#[verifier::rlimit(30)]
pub proof fn lemma_all_removed(v: DbView, encoding: QuadEncoding, keys: Seq<Seq<u8>>)
    requires
        coherent(v),
        scan_result(v[encoding.spec_family()], Seq::<u8>::empty(), keys),
    ensures
        coherent(without_keys(v, encoding, keys)),
        encoding.is_default_graph_order() ==> no_default_quads(without_keys(v, encoding, keys)),
        !encoding.is_default_graph_order() ==> no_named_quads(without_keys(v, encoding, keys)),
        forall|other: QuadEncoding|
            other.is_default_graph_order() != encoding.is_default_graph_order() ==> without_keys(
                v,
                encoding,
                keys,
            )[#[trigger] other.spec_family()] == v[other.spec_family()],
{
    assert forall|i: int| 0 <= i < keys.len() implies v[encoding.spec_family()].contains_key(
        #[trigger] keys[i],
    ) by {
        assert(keys.contains(keys[i]));
    }
    lemma_without_keys_removes(v, encoding, keys);
    let v2 = without_keys(v, encoding, keys);
    assert forall|k: Seq<u8>| !#[trigger] v2[encoding.spec_family()].contains_key(k) by {
        if v2[encoding.spec_family()].contains_key(k) {
            assert(v[encoding.spec_family()].contains_key(k));
            assert(k.subrange(0, 0) =~= Seq::<u8>::empty());
            assert(keys.contains(k));
            let j = choose|j: int| 0 <= j < keys.len() && keys[j] == k;
            assert(!v2[encoding.spec_family()].contains_key(keys[j]));
        }
    }
    lemma_group_empty(v2, encoding);
}

/// Whether every row of one content is a row of another.
pub open spec fn rows_within(v2: DbView, v: DbView) -> bool {
    forall|cf: ColumnFamily, k: Seq<u8>| #[trigger]
        v2[cf].contains_key(k) ==> v[cf].contains_key(k) && v2[cf][k] == v[cf][k]
}

/// Removing a quad adds no row.
pub proof fn lemma_remove_effect_within(v: DbView, e: EncodedQuad)
    requires
        view_wf(v),
    ensures
        rows_within(remove_effect(v, e), v),
{
    if key_in(v, primary(e), e) {
        lemma_without_quad_tables(v, e);
        let v2 = without_quad(v, e);
        assert forall|cf: ColumnFamily, k: Seq<u8>| #[trigger]
            v2[cf].contains_key(k) implies v[cf].contains_key(k) && v2[cf][k] == v[cf][k] by {
            lemma_family_of(cf);
        }
    }
}

/// Every column family but the default one, the string table and the set
/// of graphs is that of an index.
pub proof fn lemma_family_of(cf: ColumnFamily)
    ensures
        cf == ColumnFamily::Default || cf == ColumnFamily::Id2Str || cf == ColumnFamily::Graphs
            || exists|encoding: QuadEncoding| #[trigger] encoding.spec_family() == cf,
{
    assert(QuadEncoding::Dspo.spec_family() == ColumnFamily::Dspo);
    assert(QuadEncoding::Dpos.spec_family() == ColumnFamily::Dpos);
    assert(QuadEncoding::Dosp.spec_family() == ColumnFamily::Dosp);
    assert(QuadEncoding::Spog.spec_family() == ColumnFamily::Spog);
    assert(QuadEncoding::Posg.spec_family() == ColumnFamily::Posg);
    assert(QuadEncoding::Ospg.spec_family() == ColumnFamily::Ospg);
    assert(QuadEncoding::Gspo.spec_family() == ColumnFamily::Gspo);
    assert(QuadEncoding::Gpos.spec_family() == ColumnFamily::Gpos);
    assert(QuadEncoding::Gosp.spec_family() == ColumnFamily::Gosp);
}

/// After a quad of a coherent index was removed, the index does not hold
/// its key.
proof fn lemma_remove_effect_removes(v: DbView, encoding: QuadEncoding, q: EncodedQuad)
    requires
        coherent(v),
        q.wf(),
        encoding.holds(q),
    ensures
        !key_in(remove_effect(v, q), encoding, q),
{
    if key_in(v, encoding, q) {
        lemma_coherent_row(v, encoding, q);
        lemma_without_quad_tables(v, q);
    } else if key_in(v, primary(q), q) {
        lemma_without_quad_tables(v, q);
    }
}

/// Whether every key of a list is a row of an index.
pub open spec fn keys_within(v: DbView, encoding: QuadEncoding, keys: Seq<Seq<u8>>) -> bool {
    forall|i: int| 0 <= i < keys.len() ==> v[encoding.spec_family()].contains_key(#[trigger] keys[i])
}

/// The first keys of a list of rows of an index are rows of the index.
proof fn lemma_keys_within_rest(v: DbView, encoding: QuadEncoding, keys: Seq<Seq<u8>>)
    requires
        keys_within(v, encoding, keys),
        keys.len() > 0,
    ensures
        keys_within(v, encoding, keys.drop_last()),
        v[encoding.spec_family()].contains_key(keys.last()),
{
    let rest = keys.drop_last();
    assert forall|i: int| 0 <= i < rest.len() implies v[encoding.spec_family()].contains_key(
        #[trigger] rest[i],
    ) by {
        assert(rest[i] == keys[i]);
    }
    assert(v[encoding.spec_family()].contains_key(keys[keys.len() - 1]));
}

/// A row of a coherent index is the key of a well-formed quad of the
/// group of the index.
proof fn lemma_row_quad(v: DbView, encoding: QuadEncoding, k: Seq<u8>)
    requires
        coherent(v),
        v[encoding.spec_family()].contains_key(k),
    ensures
        parse_quad(encoding, k) matches Ok(q) && q.wf() && encoding.holds(q) && quad_key(encoding, q)
            == k,
{
    assert(index_coherent(v, encoding));
    assert(row_coherent(v, encoding, k));
}

/// After the quads of keys of a coherent index were removed, the indexes
/// are coherent and no column family has a new row.
#[verifier::rlimit(40)]
pub proof fn lemma_without_keys_coherent(v: DbView, encoding: QuadEncoding, keys: Seq<Seq<u8>>)
    requires
        coherent(v),
        keys_within(v, encoding, keys),
    ensures
        coherent(without_keys(v, encoding, keys)),
        rows_within(without_keys(v, encoding, keys), v),
    decreases keys.len(),
{
    if keys.len() > 0 {
        let rest = keys.drop_last();
        let k = keys.last();
        lemma_keys_within_rest(v, encoding, keys);
        lemma_without_keys_coherent(v, encoding, rest);
        let v1 = without_keys(v, encoding, rest);
        let q = parse_quad(encoding, k)->Ok_0;
        lemma_row_quad(v, encoding, k);
        lemma_remove_effect(v1, q);
        lemma_remove_effect_within(v1, q);
        lemma_rows_within_twice(remove_effect(v1, q), v1, v);
    }
}

/// Rows within rows within rows.
proof fn lemma_rows_within_twice(a: DbView, b: DbView, c: DbView)
    requires
        rows_within(a, b),
        rows_within(b, c),
    ensures
        rows_within(a, c),
{
    assert forall|cf: ColumnFamily, k: Seq<u8>| #[trigger] a[cf].contains_key(k) implies c[cf].contains_key(
        k,
    ) && a[cf][k] == c[cf][k] by {
        assert(b[cf].contains_key(k));
    }
}

/// After the quads of keys of a coherent index were removed, the index
/// holds none of those keys.
#[verifier::rlimit(40)]
pub proof fn lemma_without_keys_gone(v: DbView, encoding: QuadEncoding, keys: Seq<Seq<u8>>, i: int)
    requires
        coherent(v),
        keys_within(v, encoding, keys),
        0 <= i < keys.len(),
    ensures
        !without_keys(v, encoding, keys)[encoding.spec_family()].contains_key(keys[i]),
    decreases keys.len(),
{
    let rest = keys.drop_last();
    let k = keys.last();
    lemma_keys_within_rest(v, encoding, keys);
    lemma_without_keys_coherent(v, encoding, rest);
    let v1 = without_keys(v, encoding, rest);
    let q = parse_quad(encoding, k)->Ok_0;
    lemma_row_quad(v, encoding, k);
    lemma_remove_effect_within(v1, q);
    if i < keys.len() - 1 {
        assert(rest[i] == keys[i]);
        lemma_without_keys_gone(v, encoding, rest, i);
    } else {
        lemma_remove_effect_removes(v1, encoding, q);
    }
}

/// Removing the quads of keys of a coherent index leaves the indexes of
/// the other group as they are.
#[verifier::rlimit(40)]
pub proof fn lemma_without_keys_other(
    v: DbView,
    encoding: QuadEncoding,
    keys: Seq<Seq<u8>>,
    other: QuadEncoding,
)
    requires
        coherent(v),
        keys_within(v, encoding, keys),
        other.is_default_graph_order() != encoding.is_default_graph_order(),
    ensures
        without_keys(v, encoding, keys)[other.spec_family()] == v[other.spec_family()],
    decreases keys.len(),
{
    if keys.len() > 0 {
        let rest = keys.drop_last();
        let k = keys.last();
        lemma_keys_within_rest(v, encoding, keys);
        lemma_without_keys_other(v, encoding, rest, other);
        lemma_without_keys_coherent(v, encoding, rest);
        let v1 = without_keys(v, encoding, rest);
        let q = parse_quad(encoding, k)->Ok_0;
        lemma_row_quad(v, encoding, k);
        lemma_without_quad_tables(v1, q);
    }
}

/// After the quads of keys of a coherent index were removed, the index
/// holds none of those keys, no column family has a new row, the indexes
/// of the other group are as they were, and the indexes are coherent.
pub proof fn lemma_without_keys_removes(v: DbView, encoding: QuadEncoding, keys: Seq<Seq<u8>>)
    requires
        coherent(v),
        forall|i: int|
            0 <= i < keys.len() ==> v[encoding.spec_family()].contains_key(#[trigger] keys[i]),
    ensures
        coherent(without_keys(v, encoding, keys)),
        rows_within(without_keys(v, encoding, keys), v),
        forall|i: int|
            0 <= i < keys.len() ==> !without_keys(v, encoding, keys)[encoding.spec_family()].contains_key(
                #[trigger] keys[i],
            ),
        forall|other: QuadEncoding|
            other.is_default_graph_order() != encoding.is_default_graph_order() ==> without_keys(
                v,
                encoding,
                keys,
            )[#[trigger] other.spec_family()] == v[other.spec_family()],
{
    lemma_without_keys_coherent(v, encoding, keys);
    assert forall|i: int| 0 <= i < keys.len() implies !without_keys(
        v,
        encoding,
        keys,
    )[encoding.spec_family()].contains_key(#[trigger] keys[i]) by {
        lemma_without_keys_gone(v, encoding, keys, i);
    }
    assert forall|other: QuadEncoding|
        other.is_default_graph_order() != encoding.is_default_graph_order() implies without_keys(
        v,
        encoding,
        keys,
    )[#[trigger] other.spec_family()] == v[other.spec_family()] by {
        lemma_without_keys_other(v, encoding, keys, other);
    }
}

/// The content after a named graph was removed.
pub open spec fn remove_graph_effect(v: DbView, g: EncodedTerm, keys: Seq<Seq<u8>>) -> DbView {
    if v[ColumnFamily::Graphs].contains_key(term_bytes(g)) {
        let cleared = without_keys(v, QuadEncoding::Gspo, keys);
        cleared.insert(ColumnFamily::Graphs, cleared[ColumnFamily::Graphs].remove(term_bytes(g)))
    } else {
        v
    }
}

impl StorageWriter {
    /// Removes a named graph: its quads, and its name from the set of
    /// graphs. Gives `true` if the set of graphs held the name.
    pub fn remove_named_graph(&mut self, graph_name: &NamedOrBlankNode) -> (r: Result<
        bool,
        StorageError,
    >)
        requires
            old(self).wf(),
        ensures
            final(self).wf(),
            old(self).same_upkeep(final(self)),
            rows_within(final(self)@, old(self)@),
            coherent(old(self)@) ==> r is Ok && coherent(final(self)@) && final(self)@
                == crate::graph_laws::graph_removed(
                old(self)@,
                encode_named_or_blank_node(*graph_name),
            ),
            r matches Ok(b) ==> b == old(self)@[ColumnFamily::Graphs].contains_key(
                term_bytes(encode_named_or_blank_node(*graph_name)),
            ) && exists|keys: Seq<Seq<u8>>|
                scan_result(
                    old(self)@[ColumnFamily::Gspo],
                    term_bytes(encode_named_or_blank_node(*graph_name)),
                    keys,
                ) && #[trigger] remove_graph_effect(
                    old(self)@,
                    encode_named_or_blank_node(*graph_name),
                    keys,
                ) == final(self)@,
            final(self)@[ColumnFamily::Id2Str] == old(self)@[ColumnFamily::Id2Str],
            final(self)@[ColumnFamily::Default] == old(self)@[ColumnFamily::Default],
    {
        let encoded = EncodedTerm::from_named_or_blank_node(graph_name);
        proof {
            match graph_name {
                NamedOrBlankNode::BlankNode(b) => {
                    lemma_encode_blank_node_wf(*b);
                },
                _ => {},
            }
            assert(encoded.wf());
        }
        self.remove_encoded_named_graph(&encoded)
    }

    /// Removes the named graph of an encoded name.
#[verifier::rlimit(30)]
    pub fn remove_encoded_named_graph(&mut self, graph_name: &EncodedTerm) -> (r: Result<
        bool,
        StorageError,
    >)
        requires
            old(self).wf(),
        ensures
            final(self).wf(),
            old(self).same_upkeep(final(self)),
            rows_within(final(self)@, old(self)@),
            coherent(old(self)@) ==> r is Ok && coherent(final(self)@) && rows_within(
                final(self)@,
                old(self)@,
            ) && final(self)@[ColumnFamily::Dspo] == old(self)@[ColumnFamily::Dspo] && final(self)@[ColumnFamily::Dpos]
                == old(self)@[ColumnFamily::Dpos] && final(self)@[ColumnFamily::Dosp] == old(
                self)@[ColumnFamily::Dosp],
            coherent(old(self)@) && graph_name.wf() ==> final(self)@
                == crate::graph_laws::graph_removed(old(self)@, *graph_name),
            r matches Ok(b) ==> b == old(self)@[ColumnFamily::Graphs].contains_key(
                term_bytes(*graph_name),
            ) && !final(self)@[ColumnFamily::Graphs].contains_key(term_bytes(*graph_name))
                && exists|keys: Seq<Seq<u8>>|
                scan_result(old(self)@[ColumnFamily::Gspo], term_bytes(*graph_name), keys)
                    && #[trigger] remove_graph_effect(old(self)@, *graph_name, keys) == final(self)@,
            final(self)@[ColumnFamily::Id2Str] == old(self)@[ColumnFamily::Id2Str],
            final(self)@[ColumnFamily::Default] == old(self)@[ColumnFamily::Default],
            forall|k: Seq<u8>|
                k != term_bytes(*graph_name) ==> final(self)@[ColumnFamily::Graphs].contains_key(k)
                    == old(self)@[ColumnFamily::Graphs].contains_key(k),
    {
        let ghost v = self@;
        proof {
            self.lemma_view();
        }
        self.buffer.clear();
        write_term(&mut self.buffer, graph_name);
        proof {
            assert(self.buffer@ =~= term_bytes(*graph_name));
        }
        let keys = self.db.scan_prefix(ColumnFamily::Gspo, self.buffer.as_slice());
        let ghost all = byte_strings(keys@);
        if self.db.contains_key(ColumnFamily::Graphs, self.buffer.as_slice()) {
            proof {
                lemma_without_keys(v, QuadEncoding::Gspo, all);
                if coherent(v) {
                    lemma_scan_decodes(v, QuadEncoding::Gspo, term_bytes(*graph_name), all);
                    assert forall|i: int| 0 <= i < all.len() implies v[QuadEncoding::Gspo.spec_family()].contains_key(
                        #[trigger] all[i],
                    ) by {
                        assert(all.contains(all[i]));
                    }
                    lemma_without_keys_removes(v, QuadEncoding::Gspo, all);
                    assert(QuadEncoding::Dspo.spec_family() == ColumnFamily::Dspo);
                    assert(QuadEncoding::Dpos.spec_family() == ColumnFamily::Dpos);
                    assert(QuadEncoding::Dosp.spec_family() == ColumnFamily::Dosp);
                }
            }
            self.remove_keys(&keys, QuadEncoding::Gspo)?;
            let ghost cleared = self@;
            self.buffer.clear();
            write_term(&mut self.buffer, graph_name);
            proof {
                assert(self.buffer@ =~= term_bytes(*graph_name));
            }
            self.db.remove(ColumnFamily::Graphs, self.buffer.as_slice());
            proof {
                assert(remove_graph_effect(v, *graph_name, all) == self@);
                if coherent(v) && graph_name.wf() {
                    crate::graph_laws::lemma_clear_graph(v, *graph_name, all);
                }
                if coherent(v) {
                    assert forall|k: Seq<u8>| #[trigger]
                        cleared[ColumnFamily::Gspo].contains_key(k) implies !crate::backend::is_prefix(
                        term_bytes(*graph_name),
                        k,
                    ) by {
                        if crate::backend::is_prefix(term_bytes(*graph_name), k) {
                            assert(v[ColumnFamily::Gspo].contains_key(k));
                            assert(all.contains(k));
                            let i = choose|i: int| 0 <= i < all.len() && all[i] == k;
                            assert(!cleared[QuadEncoding::Gspo.spec_family()].contains_key(all[i]));
                        }
                    }
                    crate::index::lemma_graph_leaves(cleared, term_bytes(*graph_name));
                    assert forall|cf: ColumnFamily, k: Seq<u8>| #[trigger]
                        self@[cf].contains_key(k) implies v[cf].contains_key(k) && self@[cf][k]
                        == v[cf][k] by {
                        assert(cleared[cf].contains_key(k));
                    }
                }
            }
            Ok(true)
        } else {
            proof {
                assert(remove_graph_effect(v, *graph_name, all) == self@);
            }
            Ok(false)
        }
    }
}

/// Whether a column family has no row.
pub open spec fn no_rows(v: DbView, cf: ColumnFamily) -> bool {
    forall|k: Seq<u8>| !#[trigger] v[cf].contains_key(k)
}

/// Whether the six indexes of the named graphs have no row.
pub open spec fn no_named_quads(v: DbView) -> bool {
    &&& no_rows(v, ColumnFamily::Spog)
    &&& no_rows(v, ColumnFamily::Posg)
    &&& no_rows(v, ColumnFamily::Ospg)
    &&& no_rows(v, ColumnFamily::Gspo)
    &&& no_rows(v, ColumnFamily::Gpos)
    &&& no_rows(v, ColumnFamily::Gosp)
}

/// Whether the three indexes of the default graph have no row.
pub open spec fn no_default_quads(v: DbView) -> bool {
    &&& no_rows(v, ColumnFamily::Dspo)
    &&& no_rows(v, ColumnFamily::Dpos)
    &&& no_rows(v, ColumnFamily::Dosp)
}

/// In coherent indexes, the group of an index without rows has no rows.
pub proof fn lemma_group_empty(v: DbView, encoding: QuadEncoding)
    requires
        coherent(v),
        no_rows(v, encoding.spec_family()),
    ensures
        encoding.is_default_graph_order() ==> no_default_quads(v),
        !encoding.is_default_graph_order() ==> no_named_quads(v),
{
    assert forall|other: QuadEncoding, k: Seq<u8>|
        other.is_default_graph_order() == encoding.is_default_graph_order() implies !#[trigger] v[other.spec_family()].contains_key(
        k,
    ) by {
        if v[other.spec_family()].contains_key(k) {
            assert(index_coherent(v, other));
            assert(row_coherent(v, other, k));
            let q = parse_quad(other, k)->Ok_0;
            assert(key_in(v, encoding, q));
        }
    }
    assert(QuadEncoding::Dspo.spec_family() == ColumnFamily::Dspo);
    assert(QuadEncoding::Dpos.spec_family() == ColumnFamily::Dpos);
    assert(QuadEncoding::Dosp.spec_family() == ColumnFamily::Dosp);
    assert(QuadEncoding::Spog.spec_family() == ColumnFamily::Spog);
    assert(QuadEncoding::Posg.spec_family() == ColumnFamily::Posg);
    assert(QuadEncoding::Ospg.spec_family() == ColumnFamily::Ospg);
    assert(QuadEncoding::Gspo.spec_family() == ColumnFamily::Gspo);
    assert(QuadEncoding::Gpos.spec_family() == ColumnFamily::Gpos);
    assert(QuadEncoding::Gosp.spec_family() == ColumnFamily::Gosp);
}

/// In coherent indexes with an empty set of graphs, the indexes of the
/// named graphs have no rows.
pub proof fn lemma_no_graphs_no_quads(v: DbView)
    requires
        coherent(v),
        no_rows(v, ColumnFamily::Graphs),
    ensures
        no_named_quads(v),
{
    assert forall|k: Seq<u8>| !#[trigger] v[ColumnFamily::Gspo].contains_key(k) by {
        if v[ColumnFamily::Gspo].contains_key(k) {
            assert(QuadEncoding::Gspo.spec_family() == ColumnFamily::Gspo);
            assert(index_coherent(v, QuadEncoding::Gspo));
            assert(row_coherent(v, QuadEncoding::Gspo, k));
        }
    }
    assert(QuadEncoding::Gspo.spec_family() == ColumnFamily::Gspo);
    lemma_group_empty(v, QuadEncoding::Gspo);
}

impl StorageWriter {
    /// Removes every named graph: its quads, and its name from the set of
    /// graphs. Coherent indexes are left with an empty set of graphs and
    /// no quad but those of the default graph.
#[verifier::rlimit(30)]
    pub fn remove_all_named_graphs(&mut self) -> (r: Result<(), StorageError>)
        requires
            old(self).wf(),
        ensures
            final(self).wf(),
            old(self).same_upkeep(final(self)),
            rows_within(final(self)@, old(self)@),
            coherent(old(self)@) ==> r is Ok && coherent(final(self)@) && no_rows(
                final(self)@,
                ColumnFamily::Graphs,
            )
                && no_named_quads(final(self)@)
                && final(self)@[ColumnFamily::Dspo] == old(self)@[ColumnFamily::Dspo]
                && final(self)@[ColumnFamily::Dpos] == old(self)@[ColumnFamily::Dpos]
                && final(self)@[ColumnFamily::Dosp] == old(self)@[ColumnFamily::Dosp],
            final(self)@[ColumnFamily::Id2Str] == old(self)@[ColumnFamily::Id2Str],
            final(self)@[ColumnFamily::Default] == old(self)@[ColumnFamily::Default],
    {
        let ghost v = self@;
        let names = self.db.iter(ColumnFamily::Graphs);
        let ghost all = byte_strings(names@);
        let mut i: usize = 0;
        while i < names.len()
            invariant
                i <= names@.len(),
                self.wf(),
                v == old(self)@,
                all == byte_strings(names@),
                scan_result(v[ColumnFamily::Graphs], Seq::<u8>::empty(), all),
                rows_within(self@, v),
                old(self).same_upkeep(self),
                self@[ColumnFamily::Id2Str] == v[ColumnFamily::Id2Str],
                self@[ColumnFamily::Default] == v[ColumnFamily::Default],
                coherent(v) ==> coherent(self@) && rows_within(self@, v)
                    && self@[ColumnFamily::Dspo] == v[ColumnFamily::Dspo]
                    && self@[ColumnFamily::Dpos] == v[ColumnFamily::Dpos]
                    && self@[ColumnFamily::Dosp] == v[ColumnFamily::Dosp] && forall|j: int|
                    0 <= j < i ==> !self@[ColumnFamily::Graphs].contains_key(#[trigger] all[j]),
            decreases names@.len() - i,
        {
            let ghost before = self@;
            proof {
                assert(all[i as int] == names@[i as int]@);
                assert(all.contains(all[i as int]));
                if coherent(v) {
                    assert(graph_row_coherent(all[i as int]));
                }
            }
            let graph_name = match decode_term(names[i].as_slice()) {
                Ok(graph_name) => graph_name,
                Err(e) => {
                    return Err(e);
                },
            };
            let removed = self.remove_encoded_named_graph(&graph_name);
            proof {
                lemma_rows_within_twice(self@, before, v);
            }
            match removed {
                Ok(_) => {},
                Err(e) => {
                    return Err(e);
                },
            }
            proof {
                if coherent(v) {
                    assert(term_bytes(graph_name) == all[i as int]);
                    assert forall|j: int| 0 <= j < i + 1 implies !self@[ColumnFamily::Graphs].contains_key(
                        #[trigger] all[j],
                    ) by {
                        if j < i {
                            assert(!before[ColumnFamily::Graphs].contains_key(all[j]));
                        }
                    }
                    assert forall|cf: ColumnFamily, k: Seq<u8>| #[trigger]
                        self@[cf].contains_key(k) implies v[cf].contains_key(k) && self@[cf][k]
                        == v[cf][k] by {
                        assert(before[cf].contains_key(k));
                    }
                }
            }
            i = i + 1;
        }
        proof {
            if coherent(v) {
                assert forall|k: Seq<u8>| !#[trigger] self@[ColumnFamily::Graphs].contains_key(k) by {
                    if self@[ColumnFamily::Graphs].contains_key(k) {
                        assert(v[ColumnFamily::Graphs].contains_key(k));
                        assert(k.subrange(0, 0) =~= Seq::<u8>::empty());
                        assert(all.contains(k));
                        let j = choose|j: int| 0 <= j < all.len() && all[j] == k;
                        assert(!self@[ColumnFamily::Graphs].contains_key(all[j]));
                    }
                }
                lemma_no_graphs_no_quads(self@);
            }
        }
        Ok(())
    }

    /// Removes every quad and every graph name. The string table stays as
    /// it is. Coherent indexes are left without any row.
#[verifier::rlimit(30)]
    pub fn clear(&mut self) -> (r: Result<(), StorageError>)
        requires
            old(self).wf(),
        ensures
            final(self).wf(),
            old(self).same_upkeep(final(self)),
            rows_within(final(self)@, old(self)@),
            coherent(old(self)@) ==> r is Ok && coherent(final(self)@) && no_rows(
                final(self)@,
                ColumnFamily::Graphs,
            ) && no_named_quads(final(self)@) && no_default_quads(final(self)@),
            final(self)@[ColumnFamily::Id2Str] == old(self)@[ColumnFamily::Id2Str],
            final(self)@[ColumnFamily::Default] == old(self)@[ColumnFamily::Default],
    {
        let ghost v = self@;
        self.remove_all_named_graphs()?;
        let ghost v1 = self@;
        let unnamed = self.db.iter(ColumnFamily::Dspo);
        let named = self.db.iter(ColumnFamily::Gspo);
        proof {
            self.lemma_view();
            if coherent(v) {
                let keys = byte_strings(unnamed@);
                lemma_scan_decodes(v1, QuadEncoding::Dspo, Seq::empty(), keys);
                assert forall|i: int| 0 <= i < keys.len() implies v1[QuadEncoding::Dspo.spec_family()].contains_key(
                    #[trigger] keys[i],
                ) by {
                    assert(keys.contains(keys[i]));
                }
                lemma_without_keys_removes(v1, QuadEncoding::Dspo, keys);
                assert(byte_strings(named@).len() == 0) by {
                    if byte_strings(named@).len() > 0 {
                        assert(byte_strings(named@).contains(byte_strings(named@)[0]));
                    }
                }
            }
        }
        self.remove_keys(&unnamed, QuadEncoding::Dspo)?;
        let ghost v2 = self@;
        let r = self.remove_keys(&named, QuadEncoding::Gspo);
        proof {
            if coherent(v) {
                let keys = byte_strings(unnamed@);
                assert(QuadEncoding::Dspo.spec_family() == ColumnFamily::Dspo);
                assert(QuadEncoding::Spog.spec_family() == ColumnFamily::Spog);
                assert(QuadEncoding::Posg.spec_family() == ColumnFamily::Posg);
                assert(QuadEncoding::Ospg.spec_family() == ColumnFamily::Ospg);
                assert(QuadEncoding::Gspo.spec_family() == ColumnFamily::Gspo);
                assert(QuadEncoding::Gpos.spec_family() == ColumnFamily::Gpos);
                assert(QuadEncoding::Gosp.spec_family() == ColumnFamily::Gosp);
                assert(self@ == v2);
                assert forall|k: Seq<u8>| !#[trigger] v2[ColumnFamily::Dspo].contains_key(k) by {
                    if v2[ColumnFamily::Dspo].contains_key(k) {
                        assert(v1[ColumnFamily::Dspo].contains_key(k));
                        assert(k.subrange(0, 0) =~= Seq::<u8>::empty());
                        assert(keys.contains(k));
                        let j = choose|j: int| 0 <= j < keys.len() && keys[j] == k;
                        assert(!v2[QuadEncoding::Dspo.spec_family()].contains_key(keys[j]));
                    }
                }
                lemma_group_empty(v2, QuadEncoding::Dspo);
            }
        }
        r
    }
}

} // verus!
