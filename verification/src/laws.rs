//! Laws of the store that relate its operations to each other.

use vstd::prelude::*;
use crate::backend::empty_db;
use crate::backend::ColumnFamily;
use crate::backend::DbView;
use crate::backend::is_prefix;
use crate::backend::scan_result;
use crate::binary_encoder::lemma_parse_term_bytes;
use crate::binary_encoder::parse_quad;
use crate::index::index_coherent;
use crate::index::row_coherent;
use crate::binary_encoder::terms_bytes;
use crate::binary_encoder::quad_key;
use crate::binary_encoder::term_bytes;
use crate::binary_encoder::QuadEncoding;
use crate::endian::u128_bytes;
use crate::binary_encoder::lemma_quad_key_injective;
use crate::binary_encoder::lemma_term_bytes_injective;
use crate::index::coherent;
use crate::index::lemma_coherent_row;
use crate::index::lemma_with_quad_tables;
use crate::index::present_everywhere;
use crate::index::with_quad;
use crate::loader::inserts_effect;
use crate::loader::lemma_empty_coherent;
use crate::loader::lemma_inserts_coherent;
use crate::loader::plain_batched;
use crate::loader::staged;
use crate::numeric_encoder::lemma_encode_quad_wf;
use crate::numeric_encoder::quad_wf;
use crate::offsets::lemma_settled_effects;
use crate::offsets::settled_quad;
use crate::storage::any_graph_scan;
use crate::storage::bound_bytes;
use crate::storage::default_scan;
use crate::storage::merged;
use crate::storage::named_graph_scan;
use crate::storage::pattern_plan;
use crate::strings::lemma_with_strings_concat;
use crate::strings::lemma_with_strings_grows;
use crate::strings::lemma_with_strings_holds;
use crate::index::lemma_coherent_frame;
use crate::index::lemma_without_quad_tables;
use crate::storage::with_version;
use crate::numeric_encoder::encode_named_or_blank_node;
use crate::strings::named_or_blank_node_strings;
use crate::writer::insert_effect;
use crate::writer::insert_graph_effect;
use crate::writer::rows_within;
use crate::writer::remove_effect;
use crate::writer::lemma_remove_effect;
use crate::writer::inserted_strings;
use crate::writer::lemma_insert_effect;
use crate::index::key_in;
use crate::index::primary;
use crate::index::view_wf;
use crate::model::BlankNode;
use crate::model::GraphName;
use crate::model::Literal;
use crate::model::Quad;
use crate::model::Term;
use crate::numeric_encoder::encode_blank_node;
use crate::numeric_encoder::encode_graph_name;
use crate::numeric_encoder::encode_literal;
use crate::numeric_encoder::encode_model_quad;
use crate::numeric_encoder::encode_model_term;
use crate::numeric_encoder::EncodedQuad;
use crate::numeric_encoder::EncodedTerm;
use crate::numeric_encoder::StrHash;
use crate::strings::blank_node_strings;
use crate::strings::graph_name_strings;
use crate::strings::literal_strings;
use crate::strings::str_key;
use crate::strings::term_strings;
use crate::strings::triple_strings;
use crate::strings::with_string;
use crate::strings::with_strings;
use crate::strings::Rows;

verus! {

/// Whether the string table has a row for a hash.
pub open spec fn hash_present(table: Rows, h: StrHash) -> bool {
    table.contains_key(u128_bytes(h.hash))
}

/// Whether the string table has a row for every hash of a term.
pub open spec fn term_present(table: Rows, t: EncodedTerm) -> bool
    decreases t,
{
    match t {
        EncodedTerm::NamedNode { iri_id } => hash_present(table, iri_id),
        EncodedTerm::BigBlankNode { id_id } => hash_present(table, id_id),
        EncodedTerm::BigStringLiteral { value_id } => hash_present(table, value_id),
        EncodedTerm::SmallBigLangStringLiteral { value, language_id } => hash_present(
            table,
            language_id,
        ),
        EncodedTerm::BigSmallLangStringLiteral { value_id, language } => hash_present(
            table,
            value_id,
        ),
        EncodedTerm::BigBigLangStringLiteral { value_id, language_id } => hash_present(
            table,
            value_id,
        ) && hash_present(table, language_id),
        EncodedTerm::SmallTypedLiteral { value, datatype_id } => hash_present(table, datatype_id),
        EncodedTerm::BigTypedLiteral { value_id, datatype_id } => hash_present(table, value_id)
            && hash_present(table, datatype_id),
        EncodedTerm::Triple(triple) => term_present(table, triple.subject) && term_present(
            table,
            triple.predicate,
        ) && term_present(table, triple.object),
        _ => true,
    }
}

/// Whether the string table has a row for each text of a list.
pub open spec fn texts_held(table: Rows, texts: Seq<Seq<char>>) -> bool {
    forall|i: int| 0 <= i < texts.len() ==> table.contains_key(str_key(#[trigger] texts[i]))
}

/// The texts of two lists are held exactly if those of each list are.
pub proof fn lemma_texts_held_concat(table: Rows, a: Seq<Seq<char>>, b: Seq<Seq<char>>)
    ensures
        texts_held(table, a + b) == (texts_held(table, a) && texts_held(table, b)),
{
    if texts_held(table, a + b) {
        assert forall|i: int| 0 <= i < a.len() implies table.contains_key(
            str_key(#[trigger] a[i]),
        ) by {
            assert((a + b)[i] == a[i]);
        }
        assert forall|i: int| 0 <= i < b.len() implies table.contains_key(
            str_key(#[trigger] b[i]),
        ) by {
            assert((a + b)[a.len() + i] == b[i]);
        }
    }
    if texts_held(table, a) && texts_held(table, b) {
        assert forall|i: int| 0 <= i < (a + b).len() implies table.contains_key(
            str_key(#[trigger] (a + b)[i]),
        ) by {
            if i < a.len() {
                assert((a + b)[i] == a[i]);
            } else {
                assert((a + b)[i] == b[i - a.len()]);
            }
        }
    }
}

/// The string table has a row for every hash of the encoded form of a
/// blank node exactly if it has a row for each of its texts.
pub proof fn lemma_blank_node_present(table: Rows, b: BlankNode)
    ensures
        term_present(table, encode_blank_node(b)) == texts_held(table, blank_node_strings(b)),
{
    let texts = blank_node_strings(b);
    if texts.len() == 1 {
        assert(texts[0] == texts[0]);
    }
}

/// The string table has a row for every hash of the encoded form of a
/// literal exactly if it has a row for each of its texts.
pub proof fn lemma_literal_present(table: Rows, l: Literal)
    ensures
        term_present(table, encode_literal(l)) == texts_held(table, literal_strings(l)),
{
    let texts = literal_strings(l);
    match l {
        Literal::Simple { value } => {
            if texts.len() == 1 {
                assert(texts[0] == value@);
            }
        },
        Literal::LanguageTagged { value, language } => {
            lemma_texts_held_concat(
                table,
                crate::strings::long_text(value@),
                crate::strings::long_text(language@),
            );
            let a = crate::strings::long_text(value@);
            let b = crate::strings::long_text(language@);
            if a.len() == 1 {
                assert(a[0] == value@);
            }
            if b.len() == 1 {
                assert(b[0] == language@);
            }
        },
        Literal::Typed { value, datatype } => {
            let a = seq![datatype.iri@];
            let b = crate::strings::long_text(value@);
            lemma_texts_held_concat(table, a, b);
            assert(a[0] == datatype.iri@);
            if b.len() == 1 {
                assert(b[0] == value@);
            }
        },
        _ => {},
    }
}

/// The string table has a row for every hash of the encoded form of a
/// term exactly if it has a row for each text of the term.
pub proof fn lemma_term_present(table: Rows, t: Term)
    ensures
        term_present(table, encode_model_term(t)) == texts_held(table, term_strings(t)),
    decreases t,
{
    match t {
        Term::NamedNode(n) => {
            let texts = term_strings(t);
            assert(texts[0] == n.iri@);
        },
        Term::BlankNode(b) => {
            lemma_blank_node_present(table, b);
        },
        Term::Literal(l) => {
            lemma_literal_present(table, l);
        },
        Term::Triple(triple) => {
            lemma_term_present(table, triple.subject);
            lemma_term_present(table, triple.predicate);
            lemma_term_present(table, triple.object);
            let a = term_strings(triple.subject);
            let b = term_strings(triple.predicate);
            let c = term_strings(triple.object);
            lemma_texts_held_concat(table, a, b);
            lemma_texts_held_concat(table, a + b, c);
        },
    }
}

/// The string table has a row for every hash of the encoded form of the
/// name of a graph exactly if it has a row for each text of the name.
pub proof fn lemma_graph_name_present(table: Rows, g: GraphName)
    ensures
        term_present(table, encode_graph_name(g)) == texts_held(table, graph_name_strings(g)),
{
    match g {
        GraphName::NamedNode(n) => {
            let texts = graph_name_strings(g);
            assert(texts[0] == n.iri@);
        },
        GraphName::BlankNode(b) => {
            lemma_blank_node_present(table, b);
        },
        GraphName::DefaultGraph => {},
    }
}

/// A string table that has more rows has a row for every hash for which
/// it had one.
pub proof fn lemma_term_present_grows(table: Rows, more: Rows, t: EncodedTerm)
    requires
        term_present(table, t),
        forall|k: Seq<u8>| #[trigger] table.contains_key(k) ==> more.contains_key(k),
    ensures
        term_present(more, t),
    decreases t,
{
    match t {
        EncodedTerm::Triple(triple) => {
            lemma_term_present_grows(table, more, triple.subject);
            lemma_term_present_grows(table, more, triple.predicate);
            lemma_term_present_grows(table, more, triple.object);
        },
        _ => {},
    }
}

/// Adding texts that the string table holds changes nothing.
pub proof fn lemma_with_held_strings(table: Rows, texts: Seq<Seq<char>>)
    requires
        texts_held(table, texts),
    ensures
        with_strings(table, texts) == table,
    decreases texts.len(),
{
    if texts.len() > 0 {
        let rest = texts.drop_last();
        assert forall|i: int| 0 <= i < rest.len() implies table.contains_key(
            str_key(#[trigger] rest[i]),
        ) by {
            assert(rest[i] == texts[i]);
        }
        lemma_with_held_strings(table, rest);
        assert(table.contains_key(str_key(texts[texts.len() - 1])));
    }
}

/// Adding texts to a string table and then putting the rows of another
/// table over the result is adding the texts to the first table with the
/// rows of the other put over it.
pub proof fn lemma_with_strings_under(table: Rows, over: Rows, texts: Seq<Seq<char>>)
    ensures
        with_strings(table, texts).union_prefer_right(over) == with_strings(
            table.union_prefer_right(over),
            texts,
        ),
    decreases texts.len(),
{
    if texts.len() > 0 {
        lemma_with_strings_under(table, over, texts.drop_last());
        let a = with_strings(table, texts.drop_last());
        let t = texts.last();
        assert(with_string(a, t).union_prefer_right(over) =~= with_string(
            a.union_prefer_right(over),
            t,
        ));
    }
}

/// Whether the string table has a row for every hash of every stored quad
/// and of every name in the set of graphs.
pub open spec fn texts_present(v: DbView) -> bool {
    &&& forall|q: EncodedQuad|
        q.wf() && #[trigger] key_in(v, primary(q), q) ==> quad_present(v[ColumnFamily::Id2Str], q)
    &&& forall|g: EncodedTerm|
        g.wf() && #[trigger] v[ColumnFamily::Graphs].contains_key(term_bytes(g)) ==> term_present(
            v[ColumnFamily::Id2Str],
            g,
        )
}

/// Whether the string table has a row for every hash of a quad.
pub open spec fn quad_present(table: Rows, q: EncodedQuad) -> bool {
    &&& term_present(table, q.subject)
    &&& term_present(table, q.predicate)
    &&& term_present(table, q.object)
    &&& term_present(table, q.graph_name)
}

/// After texts were added, the string table holds them.
pub proof fn lemma_added_texts_held(table: Rows, texts: Seq<Seq<char>>)
    ensures
        texts_held(with_strings(table, texts), texts),
{
    assert forall|i: int| 0 <= i < texts.len() implies with_strings(table, texts).contains_key(
        str_key(#[trigger] texts[i]),
    ) by {
        lemma_with_strings_holds(table, texts, i);
    }
}

/// What a string table holds, it holds after it has grown.
pub proof fn lemma_texts_held_grows(table: Rows, more: Rows, texts: Seq<Seq<char>>)
    requires
        texts_held(table, texts),
        table.submap_of(more),
    ensures
        texts_held(more, texts),
{
    assert forall|i: int| 0 <= i < texts.len() implies more.contains_key(
        str_key(#[trigger] texts[i]),
    ) by {
        assert(table.dom().contains(str_key(texts[i])));
    }
}

/// After a quad was inserted, the string table has a row for every hash
/// of the quad.
#[verifier::rlimit(30)]
pub proof fn lemma_inserted_quad_present(v: DbView, q: Quad)
    requires
        view_wf(v),
        texts_present(v),
        quad_wf(q),
        !key_in(v, primary(encode_model_quad(q)), encode_model_quad(q)),
    ensures
        quad_present(insert_effect(v, q)[ColumnFamily::Id2Str], encode_model_quad(q)),
{
    let e = encode_model_quad(q);
    let texts = inserted_strings(v, q);
    lemma_with_quad_tables(v, e);
    let before = v[ColumnFamily::Id2Str];
    let table = with_strings(before, texts);
    assert(insert_effect(v, q)[ColumnFamily::Id2Str] == table);
    lemma_added_texts_held(before, texts);
    lemma_with_strings_grows(before, texts);
    let a = term_strings(q.subject);
    let b = term_strings(q.predicate);
    let c = term_strings(q.object);
    let g = graph_name_strings(q.graph_name);
    lemma_encode_quad_wf(q);
    if texts == triple_strings(q) {
        lemma_texts_held_concat(table, a + b, c);
        lemma_texts_held_concat(table, a, b);
        if !(q.graph_name is DefaultGraph) {
            assert(term_present(before, e.graph_name));
            assert forall|k: Seq<u8>| #[trigger] before.contains_key(k) implies table.contains_key(
                k,
            ) by {
                assert(before.dom().contains(k));
            }
            lemma_term_present_grows(before, table, e.graph_name);
        }
    } else {
        lemma_texts_held_concat(table, a + b + c, g);
        lemma_texts_held_concat(table, a + b, c);
        lemma_texts_held_concat(table, a, b);
        lemma_graph_name_present(table, q.graph_name);
    }
    lemma_term_present(table, q.subject);
    lemma_term_present(table, q.predicate);
    lemma_term_present(table, q.object);
}

/// Inserting a quad keeps a row in the string table for every hash of
/// every stored quad and of every name in the set of graphs.
#[verifier::rlimit(30)]
pub proof fn lemma_insert_texts_present(v: DbView, q: Quad)
    requires
        view_wf(v),
        texts_present(v),
    ensures
        texts_present(insert_effect(v, q)),
{
    lemma_settled_effects(v, q);
    lemma_written_texts_present(v, settled_quad(q));
}

/// Inserting a quad whose timestamps can be written keeps a row in the
/// string table for every hash of every stored quad and of every name in
/// the set of graphs.
#[verifier::rlimit(30)]
proof fn lemma_written_texts_present(v: DbView, q: Quad)
    requires
        view_wf(v),
        texts_present(v),
        quad_wf(q),
    ensures
        texts_present(insert_effect(v, q)),
{
    let e = encode_model_quad(q);
    let v2 = insert_effect(v, q);
    if !key_in(v, primary(e), e) {
        lemma_encode_quad_wf(q);
        lemma_with_quad_tables(v, e);
        lemma_inserted_quad_present(v, q);
        let before = v[ColumnFamily::Id2Str];
        let table = v2[ColumnFamily::Id2Str];
        lemma_with_strings_grows(before, inserted_strings(v, q));
        assert forall|k: Seq<u8>| #[trigger] before.contains_key(k) implies table.contains_key(
            k,
        ) by {
            assert(before.dom().contains(k));
        }
        assert forall|q2: EncodedQuad| q2.wf() && #[trigger] key_in(
            v2,
            primary(q2),
            q2,
        ) implies quad_present(table, q2) by {
            if key_in(v, primary(q2), q2) {
                lemma_term_present_grows(before, table, q2.subject);
                lemma_term_present_grows(before, table, q2.predicate);
                lemma_term_present_grows(before, table, q2.object);
                lemma_term_present_grows(before, table, q2.graph_name);
            } else {
                assert(primary(q2).holds(e));
                lemma_quad_key_injective(primary(q2), q2, e);
            }
        }
        assert forall|g: EncodedTerm|
            g.wf() && #[trigger] v2[ColumnFamily::Graphs].contains_key(
                term_bytes(g),
            ) implies term_present(table, g) by {
            if v[ColumnFamily::Graphs].contains_key(term_bytes(g)) {
                lemma_term_present_grows(before, table, g);
            } else {
                lemma_term_bytes_injective(g, e.graph_name);
            }
        }
    }
}

/// Inserting quads keeps a row in the string table for every hash of
/// every stored quad and graph name.
pub proof fn lemma_inserts_texts_present(v: DbView, quads: Seq<Quad>)
    requires
        view_wf(v),
        texts_present(v),
    ensures
        texts_present(inserts_effect(v, quads)),
    decreases quads.len(),
{
    if quads.len() > 0 {
        let rest = quads.drop_last();
        lemma_inserts_texts_present(v, rest);
        lemma_inserts_coherent(v, rest);
        lemma_insert_texts_present(inserts_effect(v, rest), quads.last());
    }
}

/// Whether a content is coherent and has a row in the string table for
/// every hash of every stored quad and graph name.
#[verifier::opaque]
pub open spec fn sound(v: DbView) -> bool {
    coherent(v) && texts_present(v)
}

/// Inserting quads keeps a content sound.
pub proof fn lemma_inserts_sound(v: DbView, quads: Seq<Quad>)
    requires
        sound(v),
    ensures
        sound(inserts_effect(v, quads)),
{
    reveal(sound);
    lemma_inserts_coherent(v, quads);
    lemma_inserts_texts_present(v, quads);
}

/// The first quads of a list and those behind them make the list.
pub proof fn lemma_quads_parts(quads: Seq<Quad>, size: int)
    requires
        0 <= size <= quads.len(),
    ensures
        quads.take(size) + quads.skip(size) == quads,
{
    let first = quads.take(size);
    let rest = quads.skip(size);
    assert(first + rest =~= quads);
}

/// A staged content put under a content has the rows of both.
pub proof fn lemma_merged_tables(staged: DbView, v: DbView)
    requires
        view_wf(staged),
        view_wf(v),
    ensures
        view_wf(merged(staged, v)),
        merged(staged, v)[ColumnFamily::Default] == v[ColumnFamily::Default],
        forall|cf: ColumnFamily|
            cf != ColumnFamily::Default ==> #[trigger] merged(staged, v)[cf]
                == staged[cf].union_prefer_right(v[cf]),
{
    let m = merged(staged, v);
    assert forall|cf: ColumnFamily| (#[trigger] m[cf]).dom().finite() by {
        assert(staged.contains_key(cf) && v.contains_key(cf));
        assert(staged[cf].dom().finite() && v[cf].dom().finite());
        if cf != ColumnFamily::Default {
            assert(m[cf].dom() =~= staged[cf].dom().union(v[cf].dom()));
        }
    }
}

/// An empty stage changes nothing.
pub proof fn lemma_merged_empty(v: DbView)
    requires
        view_wf(v),
    ensures
        merged(empty_db(), v) == v,
{
    let m = merged(empty_db(), v);
    assert forall|cf: ColumnFamily| #[trigger] m[cf] == v[cf] by {
        assert(empty_db()[cf].union_prefer_right(v[cf]) =~= v[cf]);
    }
    assert(m =~= v);
}

/// A row that is added to a staged table shows in the merged table only
/// if the table below lacks its key.
proof fn lemma_union_insert(a: Rows, over: Rows, k: Seq<u8>, x: Seq<u8>)
    ensures
        over.contains_key(k) ==> a.insert(k, x).union_prefer_right(over) == a.union_prefer_right(
            over,
        ),
        !over.contains_key(k) ==> a.insert(k, x).union_prefer_right(over) == a.union_prefer_right(
            over,
        ).insert(k, x),
{
    if over.contains_key(k) {
        assert(a.insert(k, x).union_prefer_right(over) =~= a.union_prefer_right(over));
    } else {
        assert(a.insert(k, x).union_prefer_right(over) =~= a.union_prefer_right(over).insert(k, x));
    }
}

/// Staging a quad that the store below holds changes nothing of what the
/// stage and the store make together.
#[verifier::rlimit(30)]
proof fn lemma_merge_step_stored(staged: DbView, v: DbView, q: Quad)
    requires
        coherent(staged),
        sound(v),
        quad_wf(q),
        !key_in(staged, primary(encode_model_quad(q)), encode_model_quad(q)),
        key_in(v, primary(encode_model_quad(q)), encode_model_quad(q)),
    ensures
        merged(insert_effect(staged, q), v) == merged(staged, v),
{
    reveal(sound);
    let e = encode_model_quad(q);
    let s2 = insert_effect(staged, q);
    lemma_encode_quad_wf(q);
    lemma_with_quad_tables(staged, e);
    lemma_insert_effect(staged, q);
    lemma_merged_tables(staged, v);
    lemma_merged_tables(s2, v);
    lemma_coherent_row(v, primary(e), e);
    let texts = inserted_strings(staged, q);
    let table = v[ColumnFamily::Id2Str];
    // The store below has a row for each text of the quad.
    assert(quad_present(table, e));
    lemma_term_present(table, q.subject);
    lemma_term_present(table, q.predicate);
    lemma_term_present(table, q.object);
    lemma_graph_name_present(table, q.graph_name);
    let a = term_strings(q.subject);
    let b = term_strings(q.predicate);
    let c = term_strings(q.object);
    lemma_texts_held_concat(table, a, b);
    lemma_texts_held_concat(table, a + b, c);
    lemma_texts_held_concat(table, a + b + c, graph_name_strings(q.graph_name));
    assert(texts_held(table, texts));
    let under = staged[ColumnFamily::Id2Str].union_prefer_right(table);
    lemma_with_strings_under(staged[ColumnFamily::Id2Str], table, texts);
    assert(texts_held(under, texts)) by {
        assert forall|i: int| 0 <= i < texts.len() implies under.contains_key(
            str_key(#[trigger] texts[i]),
        ) by {}
    }
    lemma_with_held_strings(under, texts);
    assert forall|cf: ColumnFamily| #[trigger] merged(s2, v)[cf] == merged(staged, v)[cf] by {
        if cf != ColumnFamily::Default && cf != ColumnFamily::Id2Str {
            lemma_merge_step_stored_table(staged, v, e, cf);
            assert(s2[cf] == with_quad(staged, e)[cf]);
        }
    }
    assert(merged(s2, v) =~= merged(staged, v));
}

/// The rows that staging a quad adds to an index or to the set of graphs
/// are rows of a coherent store that holds the quad.
proof fn lemma_merge_step_stored_table(staged: DbView, v: DbView, e: EncodedQuad, cf: ColumnFamily)
    requires
        view_wf(staged),
        present_everywhere(v, e),
        cf != ColumnFamily::Id2Str,
        cf != ColumnFamily::Default,
    ensures
        with_quad(staged, e)[cf].union_prefer_right(v[cf]) == staged[cf].union_prefer_right(v[cf]),
{
    lemma_with_quad_tables(staged, e);
    crate::writer::lemma_family_of(cf);
    if cf == ColumnFamily::Graphs {
        lemma_union_insert(staged[cf], v[cf], term_bytes(e.graph_name), Seq::empty());
    } else {
        let encoding = choose|encoding: QuadEncoding| #[trigger] encoding.spec_family() == cf;
        lemma_union_insert(staged[cf], v[cf], quad_key(encoding, e), Seq::empty());
        assert(QuadEncoding::Dspo.spec_family() == ColumnFamily::Dspo);
        assert(QuadEncoding::Dpos.spec_family() == ColumnFamily::Dpos);
        assert(QuadEncoding::Dosp.spec_family() == ColumnFamily::Dosp);
        assert(QuadEncoding::Spog.spec_family() == ColumnFamily::Spog);
        assert(QuadEncoding::Posg.spec_family() == ColumnFamily::Posg);
        assert(QuadEncoding::Ospg.spec_family() == ColumnFamily::Ospg);
        assert(QuadEncoding::Gspo.spec_family() == ColumnFamily::Gspo);
        assert(QuadEncoding::Gpos.spec_family() == ColumnFamily::Gpos);
        assert(QuadEncoding::Gosp.spec_family() == ColumnFamily::Gosp);
    }
}

/// In a coherent store that does not hold a quad, no index of the group
/// of the quad holds its key.
proof fn lemma_not_stored(v: DbView, e: EncodedQuad, encoding: QuadEncoding)
    requires
        coherent(v),
        e.wf(),
        !key_in(v, primary(e), e),
        encoding.holds(e),
    ensures
        !key_in(v, encoding, e),
{
    if key_in(v, encoding, e) {
        lemma_coherent_row(v, encoding, e);
    }
}

/// Staging a quad that neither the stage nor the store below holds is, for
/// an index or the set of graphs, inserting it into what both make
/// together.
proof fn lemma_merge_step_new_table(staged: DbView, v: DbView, e: EncodedQuad, cf: ColumnFamily)
    requires
        view_wf(staged),
        view_wf(v),
        coherent(v),
        e.wf(),
        !key_in(v, primary(e), e),
        cf != ColumnFamily::Id2Str,
        cf != ColumnFamily::Default,
    ensures
        with_quad(staged, e)[cf].union_prefer_right(v[cf]) == with_quad(merged(staged, v), e)[cf],
{
    lemma_with_quad_tables(staged, e);
    lemma_merged_tables(staged, v);
    lemma_with_quad_tables(merged(staged, v), e);
    crate::writer::lemma_family_of(cf);
    if cf == ColumnFamily::Graphs {
        lemma_union_insert(staged[cf], v[cf], term_bytes(e.graph_name), Seq::empty());
    } else {
        let encoding = choose|encoding: QuadEncoding| #[trigger] encoding.spec_family() == cf;
        if encoding.holds(e) {
            lemma_not_stored(v, e, encoding);
        }
        lemma_union_insert(staged[cf], v[cf], quad_key(encoding, e), Seq::empty());
    }
}

/// Staging a quad that neither the stage nor the store below holds is, for
/// the string table, inserting it into what both make together.
#[verifier::rlimit(30)]
proof fn lemma_merge_step_new_texts(staged: DbView, v: DbView, q: Quad)
    requires
        view_wf(staged),
        sound(v),
        quad_wf(q),
        !key_in(v, primary(encode_model_quad(q)), encode_model_quad(q)),
    ensures
        with_strings(
            staged[ColumnFamily::Id2Str],
            inserted_strings(staged, q),
        ).union_prefer_right(v[ColumnFamily::Id2Str]) == with_strings(
            merged(staged, v)[ColumnFamily::Id2Str],
            inserted_strings(merged(staged, v), q),
        ),
{
    reveal(sound);
    let e = encode_model_quad(q);
    let w = merged(staged, v);
    lemma_encode_quad_wf(q);
    lemma_merged_tables(staged, v);
    let below = v[ColumnFamily::Id2Str];
    let joined = w[ColumnFamily::Id2Str];
    let mine = inserted_strings(staged, q);
    let theirs = inserted_strings(w, q);
    lemma_with_strings_under(staged[ColumnFamily::Id2Str], below, mine);
    if mine != theirs {
        let triple = triple_strings(q);
        let names = graph_name_strings(q.graph_name);
        assert(mine == triple + names);
        assert(theirs == triple);
        assert(v[ColumnFamily::Graphs].contains_key(term_bytes(e.graph_name)));
        assert(term_present(below, e.graph_name));
        lemma_graph_name_present(below, q.graph_name);
        lemma_with_strings_concat(joined, triple, names);
        lemma_with_strings_grows(joined, triple);
        assert(below.submap_of(joined));
        lemma_texts_held_grows(below, joined, names);
        lemma_texts_held_grows(joined, with_strings(joined, triple), names);
        lemma_with_held_strings(with_strings(joined, triple), names);
    }
}

/// Staging a quad that neither the stage nor the store below holds is
/// inserting it into what both make together.
#[verifier::rlimit(30)]
proof fn lemma_merge_step_new(staged: DbView, v: DbView, q: Quad)
    requires
        coherent(staged),
        sound(v),
        quad_wf(q),
        !key_in(staged, primary(encode_model_quad(q)), encode_model_quad(q)),
        !key_in(v, primary(encode_model_quad(q)), encode_model_quad(q)),
    ensures
        merged(insert_effect(staged, q), v) == insert_effect(merged(staged, v), q),
{
    reveal(sound);
    let e = encode_model_quad(q);
    let w = merged(staged, v);
    let s2 = insert_effect(staged, q);
    let w2 = insert_effect(w, q);
    lemma_encode_quad_wf(q);
    lemma_merged_tables(staged, v);
    lemma_with_quad_tables(staged, e);
    lemma_with_quad_tables(w, e);
    lemma_insert_effect(staged, q);
    lemma_merged_tables(s2, v);
    assert(QuadEncoding::Dspo.spec_family() == ColumnFamily::Dspo);
    assert(QuadEncoding::Spog.spec_family() == ColumnFamily::Spog);
    assert(!key_in(w, primary(e), e));
    lemma_merge_step_new_texts(staged, v, q);
    assert forall|cf: ColumnFamily| #[trigger] merged(s2, v)[cf] == w2[cf] by {
        if cf != ColumnFamily::Default && cf != ColumnFamily::Id2Str {
            lemma_merge_step_new_table(staged, v, e, cf);
            assert(s2[cf] == with_quad(staged, e)[cf]);
            assert(w2[cf] == with_quad(w, e)[cf]);
        }
    }
    assert(merged(s2, v) =~= w2);
}

/// Staging a quad and handing the stage to a store is inserting the quad
/// into what the stage before and the store make together.
pub proof fn lemma_merge_step(staged: DbView, v: DbView, q: Quad)
    requires
        coherent(staged),
        sound(v),
    ensures
        merged(insert_effect(staged, q), v) == insert_effect(merged(staged, v), q),
{
    lemma_settled_effects(staged, q);
    lemma_settled_effects(merged(staged, v), q);
    lemma_written_merge_step(staged, v, settled_quad(q));
}

/// Staging a quad whose timestamps can be written and handing the stage
/// to a store is inserting the quad into what the stage before and the
/// store make together.
proof fn lemma_written_merge_step(staged: DbView, v: DbView, q: Quad)
    requires
        coherent(staged),
        sound(v),
        quad_wf(q),
    ensures
        merged(insert_effect(staged, q), v) == insert_effect(merged(staged, v), q),
{
    reveal(sound);
    let e = encode_model_quad(q);
    lemma_merged_tables(staged, v);
    assert(QuadEncoding::Dspo.spec_family() == ColumnFamily::Dspo);
    assert(QuadEncoding::Spog.spec_family() == ColumnFamily::Spog);
    if key_in(staged, primary(e), e) {
        assert(key_in(merged(staged, v), primary(e), e));
    } else if key_in(v, primary(e), e) {
        assert(key_in(merged(staged, v), primary(e), e));
        lemma_merge_step_stored(staged, v, q);
    } else {
        lemma_merge_step_new(staged, v, q);
    }
}

/// Bulk loading is inserting: a batch that is staged in an empty store and
/// handed to a store as sorted files leaves the store as inserting the
/// quads of the batch one after the other does, if the store is coherent
/// and has a text for every hash.
pub proof fn lemma_batch_is_inserts(v: DbView, quads: Seq<Quad>)
    requires
        sound(v),
    ensures
        merged(staged(quads), v) == inserts_effect(v, quads),
    decreases quads.len(),
{
    lemma_empty_coherent();
    if quads.len() == 0 {
        reveal(sound);
        lemma_merged_empty(v);
    } else {
        let rest = quads.drop_last();
        lemma_batch_is_inserts(v, rest);
        lemma_inserts_coherent(empty_db(), rest);
        lemma_merge_step(staged(rest), v, quads.last());
    }
}

/// Inserting two lists of quads one after the other is inserting their
/// concatenation.
pub proof fn lemma_inserts_concat(v: DbView, a: Seq<Quad>, b: Seq<Quad>)
    ensures
        inserts_effect(inserts_effect(v, a), b) == inserts_effect(v, a + b),
    decreases b.len(),
{
    if b.len() == 0 {
        assert(a + b =~= a);
    } else {
        lemma_inserts_concat(v, a, b.drop_last());
        assert((a + b).drop_last() =~= a + b.drop_last());
        assert((a + b).last() == b.last());
    }
}

/// Bulk loading is inserting, whatever the size of the batches: loading a
/// list of quads in batches leaves a store as inserting the quads one
/// after the other does, if the store is coherent and has a text for
/// every hash.
#[verifier::rlimit(30)]
pub proof fn lemma_bulk_load_is_inserts(v: DbView, quads: Seq<Quad>, size: int)
    requires
        sound(v),
    ensures
        plain_batched(v, quads, size) == inserts_effect(v, quads),
    decreases quads.len(),
{
    if size <= 0 || quads.len() < size {
        lemma_batch_is_inserts(v, quads);
    } else {
        let first = quads.take(size);
        let rest = quads.skip(size);
        lemma_quads_parts(quads, size);
        lemma_batch_is_inserts(v, first);
        lemma_inserts_sound(v, first);
        lemma_bulk_load_is_inserts(inserts_effect(v, first), rest, size);
        lemma_inserts_concat(v, first, rest);
    }
}

/// Removing a quad removes no text: the string table stays as it is, and
/// still has a row for every hash of every quad and graph name that is
/// left.
pub proof fn lemma_remove_keeps_texts(v: DbView, e: EncodedQuad)
    requires
        view_wf(v),
        texts_present(v),
    ensures
        remove_effect(v, e)[ColumnFamily::Id2Str] == v[ColumnFamily::Id2Str],
        texts_present(remove_effect(v, e)),
{
    lemma_remove_effect(v, e);
    let v2 = remove_effect(v, e);
    if key_in(v, primary(e), e) {
        lemma_without_quad_tables(v, e);
        assert(QuadEncoding::Dspo.spec_family() == ColumnFamily::Dspo);
        assert(QuadEncoding::Spog.spec_family() == ColumnFamily::Spog);
        assert forall|q: EncodedQuad| q.wf() && #[trigger] key_in(
            v2,
            primary(q),
            q,
        ) implies quad_present(v2[ColumnFamily::Id2Str], q) by {
            assert(key_in(v, primary(q), q));
        }
    }
}

/// A new store is sound: it is coherent and its string table lacks no
/// text.
pub proof fn lemma_new_store_sound()
    ensures
        sound(with_version(empty_db(), 1)),
        coherent(with_version(empty_db(), 1)),
{
    reveal(sound);
    lemma_empty_coherent();
    let v = with_version(empty_db(), 1);
    assert forall|cf: ColumnFamily| #[trigger] v.contains_key(cf) by {}
    assert forall|cf: ColumnFamily| (#[trigger] v[cf]).dom().finite() by {
        assert(empty_db()[cf].dom().finite());
    }
    lemma_coherent_frame(empty_db(), v);
    assert(QuadEncoding::Dspo.spec_family() == ColumnFamily::Dspo);
    assert(QuadEncoding::Spog.spec_family() == ColumnFamily::Spog);
}

/// What makes a content sound.
pub proof fn lemma_sound(v: DbView)
    ensures
        sound(v) == (coherent(v) && texts_present(v)),
{
    reveal(sound);
}

/// A byte string starts with another exactly if it is the other with
/// something behind it.
pub proof fn lemma_prefix_split(p: Seq<u8>, k: Seq<u8>)
    ensures
        is_prefix(p, k) ==> k == p + k.skip(p.len() as int),
        forall|tail: Seq<u8>| k == p + tail ==> is_prefix(p, k),
{
    if is_prefix(p, k) {
        assert(k =~= p + k.skip(p.len() as int));
    }
    assert forall|tail: Seq<u8>| k == p + tail implies is_prefix(p, k) by {
        assert((p + tail).subrange(0, p.len() as int) =~= p);
    }
}

/// Whether every term of a list is well formed.
pub open spec fn terms_wf(terms: Seq<EncodedTerm>) -> bool {
    forall|i: int| 0 <= i < terms.len() ==> (#[trigger] terms[i]).wf()
}

/// The binary forms of a list of terms with a first term.
proof fn lemma_terms_bytes_first(terms: Seq<EncodedTerm>)
    requires
        terms.len() > 0,
    ensures
        terms_bytes(terms) == term_bytes(terms[0]) + terms_bytes(terms.skip(1)),
{
}

/// The key of well-formed terms starts with the binary forms of other
/// well-formed terms exactly if those are its first terms: no term has a
/// binary form with which that of another term starts.
pub proof fn lemma_prefix_is_first_terms(bound: Seq<EncodedTerm>, terms: Seq<EncodedTerm>)
    requires
        terms_wf(bound),
        terms_wf(terms),
        bound.len() <= terms.len(),
    ensures
        is_prefix(terms_bytes(bound), terms_bytes(terms)) <==> bound == terms.take(
            bound.len() as int,
        ),
    decreases bound.len(),
{
    let n = bound.len() as int;
    if n == 0 {
        assert(bound =~= terms.take(0));
        assert(terms_bytes(terms).subrange(0, 0) =~= terms_bytes(bound));
    } else {
        let t0 = bound[0];
        let u0 = terms[0];
        let brest = bound.skip(1);
        let urest = terms.skip(1);
        lemma_terms_bytes_first(bound);
        lemma_terms_bytes_first(terms);
        assert forall|i: int| 0 <= i < brest.len() implies (#[trigger] brest[i]).wf() by {
            assert(brest[i] == bound[i + 1]);
        }
        assert forall|i: int| 0 <= i < urest.len() implies (#[trigger] urest[i]).wf() by {
            assert(urest[i] == terms[i + 1]);
        }
        lemma_prefix_is_first_terms(brest, urest);
        let pb = terms_bytes(bound);
        let k = terms_bytes(terms);
        lemma_prefix_split(pb, k);
        lemma_prefix_split(terms_bytes(brest), terms_bytes(urest));
        if is_prefix(pb, k) {
            let tail = k.skip(pb.len() as int);
            assert(k == pb + tail);
            assert(pb + tail =~= term_bytes(t0) + (terms_bytes(brest) + tail));
            lemma_parse_term_bytes(t0, terms_bytes(brest) + tail);
            lemma_parse_term_bytes(u0, terms_bytes(urest));
            assert(t0 == u0);
            crate::endian::lemma_concat_split(term_bytes(u0), terms_bytes(urest));
            crate::endian::lemma_concat_split(term_bytes(t0), terms_bytes(brest) + tail);
            assert(terms_bytes(urest) == terms_bytes(brest) + tail);
            assert(brest == urest.take(n - 1));
            assert(bound =~= terms.take(n)) by {
                assert forall|i: int| 0 <= i < n implies bound[i] == terms.take(n)[i] by {
                    if i > 0 {
                        assert(brest[i - 1] == urest.take(n - 1)[i - 1]);
                    }
                }
            }
        }
        if bound == terms.take(n) {
            assert(t0 == terms.take(n)[0]);
            assert(brest =~= urest.take(n - 1));
            let tail = terms_bytes(urest).skip(terms_bytes(brest).len() as int);
            assert(terms_bytes(urest) == terms_bytes(brest) + tail);
            assert(k =~= pb + tail);
        }
    }
}

/// Whether a quad has the terms that a pattern gives.
pub open spec fn matches_pattern(
    q: EncodedQuad,
    s: Option<EncodedTerm>,
    p: Option<EncodedTerm>,
    o: Option<EncodedTerm>,
    g: Option<EncodedTerm>,
) -> bool {
    &&& s matches Some(t) ==> q.subject == t
    &&& p matches Some(t) ==> q.predicate == t
    &&& o matches Some(t) ==> q.object == t
    &&& g matches Some(t) ==> q.graph_name == t
}

/// Whether a term of a pattern, if it is given, is well formed.
pub open spec fn bound_wf(t: Option<EncodedTerm>) -> bool {
    t matches Some(t) ==> t.wf()
}

/// The term of a pattern as a list of no term or one.
pub open spec fn bound_terms(t: Option<EncodedTerm>) -> Seq<EncodedTerm> {
    match t {
        Some(t) => seq![t],
        None => Seq::empty(),
    }
}

/// The binary forms of two lists of terms one after the other are those of
/// their concatenation.
pub proof fn lemma_terms_bytes_concat(a: Seq<EncodedTerm>, b: Seq<EncodedTerm>)
    ensures
        terms_bytes(a + b) == terms_bytes(a) + terms_bytes(b),
    decreases a.len(),
{
    if a.len() == 0 {
        assert(a + b =~= b);
        assert(terms_bytes(a) + terms_bytes(b) =~= terms_bytes(b));
    } else {
        lemma_terms_bytes_concat(a.skip(1), b);
        assert((a + b).skip(1) =~= a.skip(1) + b);
        assert((a + b)[0] == a[0]);
        assert(terms_bytes(a + b) =~= terms_bytes(a) + terms_bytes(b));
    }
}

/// The binary form of a term of a pattern is that of its list.
pub proof fn lemma_bound_bytes(t: Option<EncodedTerm>)
    ensures
        bound_bytes(t) == terms_bytes(bound_terms(t)),
{
    match t {
        Some(t) => {
            crate::binary_encoder::lemma_terms_bytes_unfold(t, t, t, t);
        },
        None => {},
    }
}

/// The binary forms of up to four terms of a pattern, one after the other,
/// are those of the list of the terms that are given.
pub proof fn lemma_bound_bytes_four(
    a: Option<EncodedTerm>,
    b: Option<EncodedTerm>,
    c: Option<EncodedTerm>,
    d: Option<EncodedTerm>,
)
    ensures
        bound_bytes(a) + bound_bytes(b) + bound_bytes(c) + bound_bytes(d) == terms_bytes(
            bound_terms(a) + bound_terms(b) + bound_terms(c) + bound_terms(d),
        ),
        bound_bytes(a) + bound_bytes(b) + bound_bytes(c) == terms_bytes(
            bound_terms(a) + bound_terms(b) + bound_terms(c),
        ),
        bound_bytes(a) + bound_bytes(b) == terms_bytes(bound_terms(a) + bound_terms(b)),
        bound_bytes(a) == terms_bytes(bound_terms(a)),
        terms_wf(bound_terms(a) + bound_terms(b) + bound_terms(c) + bound_terms(d)) == (bound_wf(a)
            && bound_wf(b) && bound_wf(c) && bound_wf(d)),
{
    lemma_bound_bytes(a);
    lemma_bound_bytes(b);
    lemma_bound_bytes(c);
    lemma_bound_bytes(d);
    lemma_terms_bytes_concat(bound_terms(a), bound_terms(b));
    lemma_terms_bytes_concat(bound_terms(a) + bound_terms(b), bound_terms(c));
    lemma_terms_bytes_concat(bound_terms(a) + bound_terms(b) + bound_terms(c), bound_terms(d));
    let all = bound_terms(a) + bound_terms(b) + bound_terms(c) + bound_terms(d);
    if bound_wf(a) && bound_wf(b) && bound_wf(c) && bound_wf(d) {
        assert forall|i: int| 0 <= i < all.len() implies (#[trigger] all[i]).wf() by {}
    }
    if terms_wf(all) {
        if a is Some {
            assert(all[0] == a->Some_0);
        }
        if b is Some {
            assert(all[bound_terms(a).len() as int] == b->Some_0);
        }
        if c is Some {
            assert(all[(bound_terms(a).len() + bound_terms(b).len()) as int] == c->Some_0);
        }
        if d is Some {
            assert(all[(bound_terms(a).len() + bound_terms(b).len() + bound_terms(c).len()) as int]
                == d->Some_0);
        }
    }
}

/// The key of a well-formed quad in an index starts with the terms that a
/// scan of the index fixes exactly if the quad has those terms, where the
/// terms that are fixed are the first of the order of the index and none
/// is left out before one that is fixed.
pub proof fn lemma_scan_prefix(
    encoding: QuadEncoding,
    q: EncodedQuad,
    a: Option<EncodedTerm>,
    b: Option<EncodedTerm>,
    c: Option<EncodedTerm>,
    d: Option<EncodedTerm>,
)
    requires
        q.wf(),
        encoding.holds(q),
        bound_wf(a),
        bound_wf(b),
        bound_wf(c),
        bound_wf(d),
        b is Some ==> a is Some,
        c is Some ==> b is Some,
        d is Some ==> c is Some,
        encoding.is_default_graph_order() ==> d is None,
    ensures
        is_prefix(
            bound_bytes(a) + bound_bytes(b) + bound_bytes(c) + bound_bytes(d),
            quad_key(encoding, q),
        ) <==> ((a matches Some(t) ==> encoding.terms(q)[0] == t) && (b matches Some(t)
            ==> encoding.terms(q)[1] == t) && (c matches Some(t) ==> encoding.terms(q)[2] == t) && (
        d matches Some(t) ==> encoding.terms(q)[3] == t)),
{
    let bound = bound_terms(a) + bound_terms(b) + bound_terms(c) + bound_terms(d);
    let terms = encoding.terms(q);
    lemma_bound_bytes_four(a, b, c, d);
    assert(terms_wf(terms)) by {
        assert forall|i: int| 0 <= i < terms.len() implies (#[trigger] terms[i]).wf() by {}
    }
    lemma_prefix_is_first_terms(bound, terms);
    let first = terms.take(bound.len() as int);
    if bound == first {
        if a is Some {
            assert(bound[0] == first[0]);
        }
        if b is Some {
            assert(bound[1] == first[1]);
        }
        if c is Some {
            assert(bound[2] == first[2]);
        }
        if d is Some {
            assert(bound[3] == first[3]);
        }
    }
    if (a matches Some(t) ==> terms[0] == t) && (b matches Some(t) ==> terms[1] == t) && (
    c matches Some(t) ==> terms[2] == t) && (d matches Some(t) ==> terms[3] == t) {
        assert(bound =~= first);
    }
}

/// The scan of the default graph for a pattern finds the keys of the
/// triples that match the pattern.
pub proof fn lemma_default_scan(
    s: Option<EncodedTerm>,
    p: Option<EncodedTerm>,
    o: Option<EncodedTerm>,
    q: EncodedQuad,
)
    requires
        q.wf(),
        q.graph_name is DefaultGraph,
        bound_wf(s),
        bound_wf(p),
        bound_wf(o),
    ensures
        default_scan(s, p, o).0.holds(q),
        is_prefix(default_scan(s, p, o).1, quad_key(default_scan(s, p, o).0, q)) <==> matches_pattern(
            q,
            s,
            p,
            o,
            None,
        ),
{
    let none: Option<EncodedTerm> = None;
    let empty = Seq::<u8>::empty();
    if s is Some && o is Some && p is None {
        lemma_scan_prefix(QuadEncoding::Dosp, q, o, s, none, none);
        assert(bound_bytes(o) + bound_bytes(s) + empty + empty =~= bound_bytes(o) + bound_bytes(s));
    } else if s is Some {
        let third = if p is Some { o } else { none };
        lemma_scan_prefix(QuadEncoding::Dspo, q, s, p, third, none);
        assert(bound_bytes(s) + bound_bytes(p) + bound_bytes(third) + empty =~= bound_bytes(s)
            + bound_bytes(p) + bound_bytes(o));
    } else if p is Some {
        lemma_scan_prefix(QuadEncoding::Dpos, q, p, o, none, none);
        assert(bound_bytes(p) + bound_bytes(o) + empty + empty =~= bound_bytes(p) + bound_bytes(o));
    } else if o is Some {
        lemma_scan_prefix(QuadEncoding::Dosp, q, o, none, none, none);
        assert(bound_bytes(o) + empty + empty + empty =~= bound_bytes(o));
    } else {
        lemma_scan_prefix(QuadEncoding::Dspo, q, none, none, none, none);
        assert(empty + empty + empty + empty =~= empty);
    }
}

/// The scan of the named graphs for a pattern without graph finds the
/// keys of the quads that match the pattern.
pub proof fn lemma_any_graph_scan(
    s: Option<EncodedTerm>,
    p: Option<EncodedTerm>,
    o: Option<EncodedTerm>,
    q: EncodedQuad,
)
    requires
        q.wf(),
        !(q.graph_name is DefaultGraph),
        bound_wf(s),
        bound_wf(p),
        bound_wf(o),
    ensures
        any_graph_scan(s, p, o).0.holds(q),
        is_prefix(any_graph_scan(s, p, o).1, quad_key(any_graph_scan(s, p, o).0, q))
            <==> matches_pattern(q, s, p, o, None),
{
    let none: Option<EncodedTerm> = None;
    let empty = Seq::<u8>::empty();
    if s is Some && o is Some && p is None {
        lemma_scan_prefix(QuadEncoding::Ospg, q, o, s, none, none);
        assert(bound_bytes(o) + bound_bytes(s) + empty + empty =~= bound_bytes(o) + bound_bytes(s));
    } else if s is Some {
        let third = if p is Some { o } else { none };
        lemma_scan_prefix(QuadEncoding::Spog, q, s, p, third, none);
        assert(bound_bytes(s) + bound_bytes(p) + bound_bytes(third) + empty =~= bound_bytes(s)
            + bound_bytes(p) + bound_bytes(o));
    } else if p is Some {
        lemma_scan_prefix(QuadEncoding::Posg, q, p, o, none, none);
        assert(bound_bytes(p) + bound_bytes(o) + empty + empty =~= bound_bytes(p) + bound_bytes(o));
    } else if o is Some {
        lemma_scan_prefix(QuadEncoding::Ospg, q, o, none, none, none);
        assert(bound_bytes(o) + empty + empty + empty =~= bound_bytes(o));
    } else {
        lemma_scan_prefix(QuadEncoding::Gspo, q, none, none, none, none);
        assert(empty + empty + empty + empty =~= empty);
    }
}

/// The scan of one named graph for a pattern finds the keys of the quads
/// of the graph that match the pattern.
pub proof fn lemma_named_graph_scan(
    s: Option<EncodedTerm>,
    p: Option<EncodedTerm>,
    o: Option<EncodedTerm>,
    g: EncodedTerm,
    q: EncodedQuad,
)
    requires
        q.wf(),
        !(q.graph_name is DefaultGraph),
        g.wf(),
        bound_wf(s),
        bound_wf(p),
        bound_wf(o),
    ensures
        named_graph_scan(s, p, o, g).0.holds(q),
        is_prefix(named_graph_scan(s, p, o, g).1, quad_key(named_graph_scan(s, p, o, g).0, q))
            <==> matches_pattern(q, s, p, o, Some(g)),
{
    let none: Option<EncodedTerm> = None;
    let some = Some(g);
    let empty = Seq::<u8>::empty();
    if s is Some && o is Some && p is None {
        lemma_scan_prefix(QuadEncoding::Gosp, q, some, o, s, none);
        assert(bound_bytes(some) + bound_bytes(o) + bound_bytes(s) + empty =~= term_bytes(g)
            + bound_bytes(o) + bound_bytes(s));
    } else if s is Some {
        let fourth = if p is Some { o } else { none };
        lemma_scan_prefix(QuadEncoding::Gspo, q, some, s, p, fourth);
        assert(bound_bytes(some) + bound_bytes(s) + bound_bytes(p) + bound_bytes(fourth)
            =~= term_bytes(g) + bound_bytes(s) + bound_bytes(p) + bound_bytes(o));
    } else if p is Some {
        lemma_scan_prefix(QuadEncoding::Gpos, q, some, p, o, none);
        assert(bound_bytes(some) + bound_bytes(p) + bound_bytes(o) + empty =~= term_bytes(g)
            + bound_bytes(p) + bound_bytes(o));
    } else if o is Some {
        lemma_scan_prefix(QuadEncoding::Gosp, q, some, o, none, none);
        assert(bound_bytes(some) + bound_bytes(o) + empty + empty =~= term_bytes(g) + bound_bytes(
            o,
        ));
    } else {
        lemma_scan_prefix(QuadEncoding::Gspo, q, some, none, none, none);
        assert(bound_bytes(some) + empty + empty + empty =~= term_bytes(g));
    }
}

/// Whether the key of a quad in the index of a scan starts with the prefix
/// of the scan, for a quad of the group of the index.
pub open spec fn scan_finds(scan: (QuadEncoding, Seq<u8>), q: EncodedQuad) -> bool {
    scan.0.holds(q) && is_prefix(scan.1, quad_key(scan.0, q))
}

/// The scans of a pattern find the quads that match it: a well-formed
/// quad matches a pattern of well-formed terms exactly if its key in the
/// index of one of the scans that answer the pattern starts with the
/// prefix of that scan.
pub proof fn lemma_plan_finds_matches(
    s: Option<EncodedTerm>,
    p: Option<EncodedTerm>,
    o: Option<EncodedTerm>,
    g: Option<EncodedTerm>,
    q: EncodedQuad,
)
    requires
        q.wf(),
        bound_wf(s),
        bound_wf(p),
        bound_wf(o),
        g matches Some(t) ==> t.wf() || t is DefaultGraph,
    ensures
        matches_pattern(q, s, p, o, g) <==> (scan_finds(pattern_plan(s, p, o, g).0, q) || (
        pattern_plan(s, p, o, g).1 matches Some(scan) && scan_finds(scan, q))),
{
    match g {
        None => {
            if q.graph_name is DefaultGraph {
                lemma_default_scan(s, p, o, q);
            } else {
                lemma_any_graph_scan(s, p, o, q);
            }
        },
        Some(t) => {
            if t is DefaultGraph {
                if q.graph_name is DefaultGraph {
                    lemma_default_scan(s, p, o, q);
                }
            } else {
                if !(q.graph_name is DefaultGraph) {
                    lemma_named_graph_scan(s, p, o, t, q);
                }
            }
        },
    }
}

/// A change of the store: a quad is inserted or removed.
pub enum Change {
    Insert(Quad),
    Remove(Quad),
}

/// The content after a change.
pub open spec fn change_effect(v: DbView, change: Change) -> DbView {
    match change {
        Change::Insert(q) => insert_effect(v, q),
        Change::Remove(q) => remove_effect(v, encode_model_quad(q)),
    }
}

/// The content after changes, first to last.
pub open spec fn changes_effect(v: DbView, changes: Seq<Change>) -> DbView
    decreases changes.len(),
{
    if changes.len() == 0 {
        v
    } else {
        change_effect(changes_effect(v, changes.drop_last()), changes.last())
    }
}

/// Index coherence and the permanence of texts: after any inserts and
/// removes of quads, a coherent store is coherent, so that the indexes of each group have the same number of
/// rows and every row of an index is in the other indexes of its group;
/// the string table has every row that it had, unchanged; and if it had a
/// row for every hash of every stored quad and graph name, it still has.
#[verifier::rlimit(30)]
pub proof fn lemma_changes_keep_invariants(v: DbView, changes: Seq<Change>)
    requires
        coherent(v),
    ensures
        coherent(changes_effect(v, changes)),
        v[ColumnFamily::Id2Str].submap_of(changes_effect(v, changes)[ColumnFamily::Id2Str]),
        texts_present(v) ==> texts_present(changes_effect(v, changes)),
    decreases changes.len(),
{
    if changes.len() > 0 {
        let rest = changes.drop_last();
        lemma_changes_keep_invariants(v, rest);
        let mid = changes_effect(v, rest);
        let end = changes_effect(v, changes);
        let last = changes[changes.len() - 1];
        match last {
            Change::Insert(q) => {
                lemma_insert_effect(mid, q);
                if texts_present(v) {
                    lemma_insert_texts_present(mid, q);
                }
            },
            Change::Remove(q) => {
                lemma_settled_effects(mid, q);
                lemma_encode_quad_wf(settled_quad(q));
                lemma_remove_effect(mid, encode_model_quad(settled_quad(q)));
                if texts_present(v) {
                    lemma_remove_keeps_texts(mid, encode_model_quad(settled_quad(q)));
                }
            },
        }
        assert forall|k: Seq<u8>| #[trigger] v[ColumnFamily::Id2Str].dom().contains(k) implies #[trigger] end[ColumnFamily::Id2Str].dom().contains(
            k,
        ) && v[ColumnFamily::Id2Str][k] == end[ColumnFamily::Id2Str][k] by {
            assert(mid[ColumnFamily::Id2Str].dom().contains(k));
        }
    }
}

/// In a coherent store the indexes of each group have the same number of
/// rows, and a well-formed quad whose key one index of its group holds
/// has its key in every index of the group.
pub proof fn lemma_coherent_indexes(v: DbView, encoding: QuadEncoding, q: EncodedQuad)
    requires
        coherent(v),
    ensures
        crate::index::counts_agree(v),
        q.wf() && encoding.holds(q) && key_in(v, encoding, q) ==> present_everywhere(v, q),
{
    if q.wf() && encoding.holds(q) && key_in(v, encoding, q) {
        lemma_coherent_row(v, encoding, q);
    }
}

/// Taking rows out of the indexes and the set of graphs removes no text:
/// a string table that is left as it is still has a row for every hash of
/// every quad and graph name that is left.
pub proof fn lemma_fewer_rows_keep_texts(v: DbView, v2: DbView)
    requires
        texts_present(v),
        rows_within(v2, v),
        v2[ColumnFamily::Id2Str] == v[ColumnFamily::Id2Str],
    ensures
        texts_present(v2),
{
    assert forall|q: EncodedQuad| q.wf() && #[trigger] key_in(v2, primary(q), q) implies quad_present(
        v2[ColumnFamily::Id2Str],
        q,
    ) by {
        assert(v2[primary(q).spec_family()].contains_key(quad_key(primary(q), q)));
        assert(key_in(v, primary(q), q));
    }
    assert forall|g: EncodedTerm|
        g.wf() && #[trigger] v2[ColumnFamily::Graphs].contains_key(term_bytes(g)) implies term_present(
        v2[ColumnFamily::Id2Str],
        g,
    ) by {
        assert(v[ColumnFamily::Graphs].contains_key(term_bytes(g)));
    }
}

/// Inserting a graph name keeps a row in the string table for every hash
/// of every stored quad and of every name in the set of graphs.
pub proof fn lemma_insert_graph_texts_present(v: DbView, g: crate::model::NamedOrBlankNode)
    requires
        view_wf(v),
        texts_present(v),
    ensures
        texts_present(insert_graph_effect(v, g)),
{
    let e = encode_named_or_blank_node(g);
    let key = term_bytes(e);
    let v2 = insert_graph_effect(v, g);
    if !v[ColumnFamily::Graphs].contains_key(key) {
        let texts = named_or_blank_node_strings(g);
        let before = v[ColumnFamily::Id2Str];
        let table = with_strings(before, texts);
        assert(v2[ColumnFamily::Id2Str] == table);
        lemma_with_strings_grows(before, texts);
        lemma_added_texts_held(before, texts);
        assert forall|k: Seq<u8>| #[trigger] before.contains_key(k) implies table.contains_key(
            k,
        ) by {
            assert(before.dom().contains(k));
        }
        match g {
            crate::model::NamedOrBlankNode::NamedNode(n) => {
                assert(texts[0] == n.iri@);
            },
            crate::model::NamedOrBlankNode::BlankNode(b) => {
                lemma_blank_node_present(table, b);
                crate::numeric_encoder::lemma_encode_blank_node_wf(b);
            },
        }
        assert(term_present(table, e));
        assert forall|q: EncodedQuad| q.wf() && #[trigger] key_in(
            v2,
            primary(q),
            q,
        ) implies quad_present(table, q) by {
            assert(QuadEncoding::Dspo.spec_family() == ColumnFamily::Dspo);
            assert(QuadEncoding::Spog.spec_family() == ColumnFamily::Spog);
            assert(key_in(v, primary(q), q));
            lemma_term_present_grows(before, table, q.subject);
            lemma_term_present_grows(before, table, q.predicate);
            lemma_term_present_grows(before, table, q.object);
            lemma_term_present_grows(before, table, q.graph_name);
        }
        assert forall|g2: EncodedTerm|
            g2.wf() && #[trigger] v2[ColumnFamily::Graphs].contains_key(
                term_bytes(g2),
            ) implies term_present(table, g2) by {
            if v[ColumnFamily::Graphs].contains_key(term_bytes(g2)) {
                lemma_term_present_grows(before, table, g2);
            } else {
                lemma_term_bytes_injective(g2, e);
            }
        }
    }
}

/// What a reader gives for a pattern: in a coherent store, every key of a
/// scan that answers a pattern of well-formed terms is the key of a
/// stored quad that matches the pattern, and the key of every stored quad
/// of the group of the scan that matches the pattern is among the keys of
/// the scan.
pub proof fn lemma_scan_gives_matches(
    v: DbView,
    s: Option<EncodedTerm>,
    p: Option<EncodedTerm>,
    o: Option<EncodedTerm>,
    g: Option<EncodedTerm>,
    scan: (QuadEncoding, Seq<u8>),
    keys: Seq<Seq<u8>>,
)
    requires
        coherent(v),
        bound_wf(s),
        bound_wf(p),
        bound_wf(o),
        g matches Some(t) ==> t.wf() || t is DefaultGraph,
        scan == pattern_plan(s, p, o, g).0 || pattern_plan(s, p, o, g).1 == Some(scan),
        scan_result(v[scan.0.spec_family()], scan.1, keys),
    ensures
        forall|i: int|
            0 <= i < keys.len() ==> (parse_quad(scan.0, #[trigger] keys[i]) matches Ok(q) && q.wf()
                && matches_pattern(q, s, p, o, g) && present_everywhere(v, q)),
        forall|q: EncodedQuad|
            q.wf() && scan.0.holds(q) && #[trigger] key_in(v, scan.0, q) && matches_pattern(
                q,
                s,
                p,
                o,
                g,
            ) ==> keys.contains(quad_key(scan.0, q)),
{
    assert(index_coherent(v, scan.0));
    assert forall|i: int| 0 <= i < keys.len() implies (parse_quad(
        scan.0,
        #[trigger] keys[i],
    ) matches Ok(q) && q.wf() && matches_pattern(q, s, p, o, g) && present_everywhere(v, q)) by {
        let k = keys[i];
        assert(keys.contains(k));
        assert(row_coherent(v, scan.0, k));
        let q = parse_quad(scan.0, k)->Ok_0;
        lemma_plan_finds_matches(s, p, o, g, q);
        assert(scan_finds(scan, q));
    }
    assert forall|q: EncodedQuad|
        q.wf() && scan.0.holds(q) && #[trigger] key_in(v, scan.0, q) && matches_pattern(
            q,
            s,
            p,
            o,
            g,
        ) implies keys.contains(quad_key(scan.0, q)) by {
        lemma_plan_finds_matches(s, p, o, g, q);
        assert(scan_finds(scan, q));
    }
}

} // verus!
