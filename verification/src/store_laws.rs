//! What holds of a store that was made new and changed by inserts and
//! removes alone: a validation of it succeeds.

use vstd::prelude::*;
use vstd::utf8::encode_utf8_valid_utf8;
use vstd::utf8::valid_utf8;
use crate::backend::empty_db;
use crate::backend::ColumnFamily;
use crate::backend::DbView;
use crate::binary_encoder::lemma_parsed_quad_wf;
use crate::binary_encoder::parse_quad;
use crate::binary_encoder::QuadEncoding;
use crate::binary_encoder::LATEST_STORAGE_VERSION;
use crate::index::coherent;
use crate::index::consistent;
use crate::index::index_valid;
use crate::index::lemma_with_quad_consistent;
use crate::index::present_everywhere;
use crate::index::row_valid;
use crate::index::with_quad;
use crate::index::index_coherent;
use crate::index::key_in;
use crate::index::lemma_with_quad_tables;
use crate::index::primary;
use crate::index::row_coherent;
use crate::index::view_wf;
use crate::laws::change_effect;
use crate::laws::changes_effect;
use crate::laws::lemma_changes_keep_invariants;
use crate::laws::lemma_new_store_sound;
use crate::laws::sound;
use crate::laws::term_present;
use crate::laws::texts_present;
use crate::laws::Change;
use crate::model::Quad;
use crate::numeric_encoder::encode_model_quad;
use crate::numeric_encoder::lemma_encode_quad_wf;
use crate::numeric_encoder::EncodedQuad;
use crate::offsets::lemma_settled_effects;
use crate::offsets::settled_quad;
use crate::numeric_encoder::EncodedTerm;
use crate::storage::lemma_coherent_is_valid;
use crate::storage::quad_readable;
use crate::storage::readable;
use crate::storage::term_readable;
use crate::storage::valid;
use crate::storage::with_version;
use crate::strings::with_string;
use crate::strings::with_strings;
use crate::strings::Rows;
use crate::writer::insert_effect;
use crate::writer::inserted_strings;
use crate::writer::lemma_insert_effect;
use crate::writer::lemma_remove_effect;

verus! {

/// Whether every row of a string table holds a text.
pub open spec fn rows_are_texts(table: Rows) -> bool {
    forall|k: Seq<u8>| #[trigger] table.contains_key(k) ==> valid_utf8(table[k])
}

/// Texts that are added to a string table of texts leave it one.
pub proof fn lemma_with_strings_are_texts(table: Rows, texts: Seq<Seq<char>>)
    requires
        rows_are_texts(table),
    ensures
        rows_are_texts(with_strings(table, texts)),
    decreases texts.len(),
{
    if texts.len() > 0 {
        lemma_with_strings_are_texts(table, texts.drop_last());
        encode_utf8_valid_utf8(texts.last());
        let before = with_strings(table, texts.drop_last());
        let after = with_string(before, texts.last());
        assert forall|k: Seq<u8>| #[trigger] after.contains_key(k) implies valid_utf8(after[k]) by {
            if before.contains_key(k) {
                assert(valid_utf8(before[k]));
            }
        }
    }
}

/// A string table of texts that has a row for every hash of a term gives
/// the texts of the term.
pub proof fn lemma_present_is_readable(table: Rows, t: EncodedTerm)
    requires
        rows_are_texts(table),
        term_present(table, t),
    ensures
        term_readable(table, t),
    decreases t,
{
    match t {
        EncodedTerm::Triple(triple) => {
            lemma_present_is_readable(table, triple.subject);
            lemma_present_is_readable(table, triple.predicate);
            lemma_present_is_readable(table, triple.object);
        },
        _ => {},
    }
}

/// A change leaves a string table of texts one.
pub proof fn lemma_change_keeps_texts(v: DbView, change: Change)
    requires
        view_wf(v),
        rows_are_texts(v[ColumnFamily::Id2Str]),
    ensures
        rows_are_texts(change_effect(v, change)[ColumnFamily::Id2Str]),
{
    match change {
        Change::Insert(q) => {
            let e = encode_model_quad(q);
            if !key_in(v, primary(e), e) {
                lemma_with_quad_tables(v, e);
                lemma_with_strings_are_texts(
                    with_quad(v, e)[ColumnFamily::Id2Str],
                    inserted_strings(v, q),
                );
            }
        },
        Change::Remove(q) => {
            lemma_remove_effect(v, encode_model_quad(q));
        },
    }
}

/// Changes leave a string table of texts one.
pub proof fn lemma_changes_keep_texts(v: DbView, changes: Seq<Change>)
    requires
        coherent(v),
        rows_are_texts(v[ColumnFamily::Id2Str]),
    ensures
        rows_are_texts(changes_effect(v, changes)[ColumnFamily::Id2Str]),
    decreases changes.len(),
{
    if changes.len() > 0 {
        lemma_changes_keep_texts(v, changes.drop_last());
        lemma_changes_keep_invariants(v, changes.drop_last());
        lemma_change_keeps_texts(changes_effect(v, changes.drop_last()), changes.last());
    }
}

/// Coherent stored data with a row in the string table for every hash of
/// every stored quad, all rows of which hold texts, is valid.
pub proof fn lemma_sound_is_valid(v: DbView)
    requires
        coherent(v),
        texts_present(v),
        rows_are_texts(v[ColumnFamily::Id2Str]),
    ensures
        valid(v),
{
    let table = v[ColumnFamily::Id2Str];
    assert(QuadEncoding::Dspo.spec_family() == ColumnFamily::Dspo);
    assert(QuadEncoding::Gspo.spec_family() == ColumnFamily::Gspo);
    assert(QuadEncoding::Spog.spec_family() == ColumnFamily::Spog);
    assert forall|encoding: QuadEncoding, k: Seq<u8>|
        (encoding is Dspo || encoding is Gspo) && v[encoding.spec_family()].contains_key(
            k,
        ) implies (parse_quad(encoding, k) matches Ok(q) ==> quad_readable(table, q)) by {
        assert(index_coherent(v, encoding));
        assert(row_coherent(v, encoding, k));
        lemma_parsed_quad_wf(encoding, k);
        let q = parse_quad(encoding, k)->Ok_0;
        assert(key_in(v, primary(q), q));
        lemma_present_is_readable(table, q.subject);
        lemma_present_is_readable(table, q.predicate);
        lemma_present_is_readable(table, q.object);
        lemma_present_is_readable(table, q.graph_name);
    }
    assert(readable(v)) by {
        assert forall|k: Seq<u8>| #[trigger]
            v[ColumnFamily::Dspo].contains_key(k) implies crate::storage::row_readable(
            v,
            QuadEncoding::Dspo,
            k,
        ) by {
            assert(v[QuadEncoding::Dspo.spec_family()].contains_key(k));
        }
        assert forall|k: Seq<u8>| #[trigger]
            v[ColumnFamily::Gspo].contains_key(k) implies crate::storage::row_readable(
            v,
            QuadEncoding::Gspo,
            k,
        ) by {
            assert(v[QuadEncoding::Gspo.spec_family()].contains_key(k));
        }
    }
    lemma_coherent_is_valid(v);
}

/// A new store is valid after any inserts and removes: the indexes of
/// each group have the same number of rows; every row of an index decodes
/// to a quad whose key every index of its group holds, and whose graph
/// name the set of graphs holds if it has one; and the string table gives
/// the texts of every quad that is stored, also of those that share a
/// text with a quad that was removed.
pub proof fn lemma_changed_store_is_valid(changes: Seq<Change>)
    ensures
        valid(changes_effect(with_version(empty_db(), LATEST_STORAGE_VERSION), changes)),
{
    let start = with_version(empty_db(), LATEST_STORAGE_VERSION);
    lemma_new_store_sound();
    reveal(sound);
    assert(rows_are_texts(start[ColumnFamily::Id2Str])) by {
        assert(start[ColumnFamily::Id2Str] == empty_db()[ColumnFamily::Id2Str]);
    }
    lemma_changes_keep_invariants(start, changes);
    lemma_changes_keep_texts(start, changes);
    lemma_sound_is_valid(changes_effect(start, changes));
}

/// Inserting a quad keeps the indexes consistent: where the indexes of
/// each group had the same number of rows, and every row of an index
/// decoded to a quad whose key the other indexes of its group held, the
/// same holds after the quad was inserted.
pub proof fn lemma_insert_keeps_consistent(v: DbView, q: Quad)
    requires
        consistent(v),
    ensures
        consistent(insert_effect(v, q)),
{
    let stored = settled_quad(q);
    let e = encode_model_quad(stored);
    lemma_settled_effects(v, q);
    lemma_encode_quad_wf(stored);
    lemma_insert_effect(v, stored);
    if !key_in(v, primary(e), e) {
        let v1 = with_quad(v, e);
        let v2 = insert_effect(v, stored);
        lemma_with_quad_consistent(v, e);
        lemma_with_quad_tables(v, e);
        assert forall|encoding: QuadEncoding| #[trigger] index_valid(v2, encoding) by {
            assert(index_valid(v1, encoding));
            assert forall|k: Seq<u8>| #[trigger]
                v2[encoding.spec_family()].contains_key(k) implies row_valid(v2, encoding, k) by {
                assert(v1[encoding.spec_family()].contains_key(k));
                assert(row_valid(v1, encoding, k));
                lemma_present_frame(v1, v2, parse_quad(encoding, k)->Ok_0);
            }
        }
        assert(QuadEncoding::Dspo.spec_family() == ColumnFamily::Dspo);
        assert(QuadEncoding::Dpos.spec_family() == ColumnFamily::Dpos);
        assert(QuadEncoding::Dosp.spec_family() == ColumnFamily::Dosp);
        assert(QuadEncoding::Spog.spec_family() == ColumnFamily::Spog);
        assert(QuadEncoding::Posg.spec_family() == ColumnFamily::Posg);
        assert(QuadEncoding::Ospg.spec_family() == ColumnFamily::Ospg);
        assert(QuadEncoding::Gspo.spec_family() == ColumnFamily::Gspo);
        assert(QuadEncoding::Gpos.spec_family() == ColumnFamily::Gpos);
        assert(QuadEncoding::Gosp.spec_family() == ColumnFamily::Gosp);
    }
}

/// What every index holds it holds where only the string table differs.
proof fn lemma_present_frame(v: DbView, v2: DbView, q: EncodedQuad)
    requires
        present_everywhere(v, q),
        forall|cf: ColumnFamily| cf != ColumnFamily::Id2Str ==> #[trigger] v2[cf] == v[cf],
    ensures
        present_everywhere(v2, q),
{
    assert(QuadEncoding::Dspo.spec_family() == ColumnFamily::Dspo);
    assert(QuadEncoding::Dpos.spec_family() == ColumnFamily::Dpos);
    assert(QuadEncoding::Dosp.spec_family() == ColumnFamily::Dosp);
    assert(QuadEncoding::Spog.spec_family() == ColumnFamily::Spog);
    assert(QuadEncoding::Posg.spec_family() == ColumnFamily::Posg);
    assert(QuadEncoding::Ospg.spec_family() == ColumnFamily::Ospg);
    assert(QuadEncoding::Gspo.spec_family() == ColumnFamily::Gspo);
    assert(QuadEncoding::Gpos.spec_family() == ColumnFamily::Gpos);
    assert(QuadEncoding::Gosp.spec_family() == ColumnFamily::Gosp);
}

} // verus!
