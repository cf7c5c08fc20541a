//! What clearing and removing a graph leave of a coherent store.

use vstd::prelude::*;
use crate::backend::is_prefix;
use crate::backend::scan_result;
use crate::backend::ColumnFamily;
use crate::backend::DbView;
use crate::binary_encoder::lemma_quad_key_injective;
use crate::binary_encoder::parse_quad;
use crate::binary_encoder::quad_key;
use crate::binary_encoder::term_bytes;
use crate::binary_encoder::QuadEncoding;
use crate::index::coherent;
use crate::index::index_coherent;
use crate::index::key_in;
use crate::index::lemma_without_quad_tables;
use crate::index::primary;
use crate::index::row_coherent;
use crate::laws::lemma_default_scan;
use crate::laws::lemma_named_graph_scan;
use crate::numeric_encoder::EncodedQuad;
use crate::numeric_encoder::EncodedTerm;
use crate::strings::Rows;
use crate::writer::graph_keys;
use crate::writer::graph_order;
use crate::writer::keys_within;
use crate::writer::lemma_without_keys;
use crate::writer::lemma_without_keys_removes;
use crate::writer::without_keys;

verus! {

/// The order of the keys of a column family, if it is an index.
pub open spec fn family_encoding(cf: ColumnFamily) -> Option<QuadEncoding> {
    match cf {
        ColumnFamily::Spog => Some(QuadEncoding::Spog),
        ColumnFamily::Posg => Some(QuadEncoding::Posg),
        ColumnFamily::Ospg => Some(QuadEncoding::Ospg),
        ColumnFamily::Gspo => Some(QuadEncoding::Gspo),
        ColumnFamily::Gpos => Some(QuadEncoding::Gpos),
        ColumnFamily::Gosp => Some(QuadEncoding::Gosp),
        ColumnFamily::Dspo => Some(QuadEncoding::Dspo),
        ColumnFamily::Dpos => Some(QuadEncoding::Dpos),
        ColumnFamily::Dosp => Some(QuadEncoding::Dosp),
        _ => None,
    }
}

/// Whether a key of an index is that of a quad of a graph.
pub open spec fn in_graph(encoding: QuadEncoding, k: Seq<u8>, g: EncodedTerm) -> bool {
    parse_quad(encoding, k) matches Ok(q) && q.graph_name == g
}

/// The rows of an index without those of the quads of a graph.
pub open spec fn rows_without_graph(table: Rows, encoding: QuadEncoding, g: EncodedTerm) -> Rows {
    Map::new(|k: Seq<u8>| table.contains_key(k) && !in_graph(encoding, k, g), |k: Seq<u8>| table[k])
}

/// The content without the quads of a graph: every index is without the
/// rows of the quads of the graph, and the other column families are as
/// they are.
pub open spec fn without_graph(v: DbView, g: EncodedTerm) -> DbView {
    Map::total(
        |cf: ColumnFamily|
            match family_encoding(cf) {
                Some(encoding) => rows_without_graph(v[cf], encoding, g),
                None => v[cf],
            },
    )
}

/// The content after a graph was cleared: without the quads of the graph,
/// if it is the default graph or the set of graphs holds its name.
pub open spec fn graph_cleared(v: DbView, g: EncodedTerm) -> DbView {
    if g is DefaultGraph || v[ColumnFamily::Graphs].contains_key(term_bytes(g)) {
        without_graph(v, g)
    } else {
        v
    }
}

/// The content after a named graph was removed: without the quads of the
/// graph and without its name, if the set of graphs holds the name.
pub open spec fn graph_removed(v: DbView, g: EncodedTerm) -> DbView {
    if v[ColumnFamily::Graphs].contains_key(term_bytes(g)) {
        without_graph(v, g).insert(
            ColumnFamily::Graphs,
            v[ColumnFamily::Graphs].remove(term_bytes(g)),
        )
    } else {
        v
    }
}

/// The keys that clearing a graph reads are those of the stored quads of
/// the graph.
proof fn lemma_graph_key(v: DbView, g: EncodedTerm, q: EncodedQuad)
    requires
        q.wf(),
        graph_order(g).holds(q),
        g.wf() || g is DefaultGraph,
    ensures
        is_prefix(
            if g is DefaultGraph {
                Seq::<u8>::empty()
            } else {
                term_bytes(g)
            },
            quad_key(graph_order(g), q),
        ) == (q.graph_name == g),
{
    let none: Option<EncodedTerm> = None;
    if g is DefaultGraph {
        lemma_default_scan(none, none, none, q);
    } else {
        lemma_named_graph_scan(none, none, none, g, q);
    }
}

/// Removing the quads of keys of a coherent index leaves every quad that
/// is none of them in every index that holds it.
#[verifier::rlimit(40)]
proof fn lemma_without_keys_keeps(
    v: DbView,
    from: QuadEncoding,
    keys: Seq<Seq<u8>>,
    encoding: QuadEncoding,
    q: EncodedQuad,
)
    requires
        coherent(v),
        keys_within(v, from, keys),
        q.wf(),
        encoding.holds(q),
        key_in(v, encoding, q),
        forall|i: int| 0 <= i < keys.len() ==> parse_quad(from, #[trigger] keys[i])->Ok_0 != q,
    ensures
        key_in(without_keys(v, from, keys), encoding, q),
    decreases keys.len(),
{
    if keys.len() > 0 {
        let rest = keys.drop_last();
        let k = keys.last();
        assert forall|i: int| 0 <= i < rest.len() implies v[from.spec_family()].contains_key(
            #[trigger] rest[i],
        ) && parse_quad(from, rest[i])->Ok_0 != q by {
            assert(rest[i] == keys[i]);
        }
        lemma_without_keys_keeps(v, from, rest, encoding, q);
        let v1 = without_keys(v, from, rest);
        let gone = parse_quad(from, k)->Ok_0;
        assert(v[from.spec_family()].contains_key(keys[keys.len() - 1]));
        assert(index_coherent(v, from));
        assert(row_coherent(v, from, k));
        assert(gone != q);
        if key_in(v1, primary(gone), gone) {
            lemma_without_keys(v, from, rest);
            lemma_without_quad_tables(v1, gone);
            if encoding.holds(gone) && quad_key(encoding, gone) == quad_key(encoding, q) {
                lemma_quad_key_injective(encoding, gone, q);
            }
        }
    }
}

/// Clearing a graph of a coherent store leaves the store without the
/// quads of the graph, and with every other row as it was.
#[verifier::rlimit(30)]
pub proof fn lemma_clear_graph(v: DbView, g: EncodedTerm, keys: Seq<Seq<u8>>)
    requires
        coherent(v),
        g.wf() || g is DefaultGraph,
        graph_keys(v, g, keys),
    ensures
        without_keys(v, graph_order(g), keys) == without_graph(v, g),
        coherent(without_graph(v, g)),
{
    let from = graph_order(g);
    let prefix = if g is DefaultGraph {
        Seq::<u8>::empty()
    } else {
        term_bytes(g)
    };
    let v2 = without_keys(v, from, keys);
    let target = without_graph(v, g);
    assert(QuadEncoding::Dspo.spec_family() == ColumnFamily::Dspo);
    assert(QuadEncoding::Gspo.spec_family() == ColumnFamily::Gspo);
    assert(scan_result(v[from.spec_family()], prefix, keys));
    assert forall|i: int| 0 <= i < keys.len() implies v[from.spec_family()].contains_key(
        #[trigger] keys[i],
    ) by {
        assert(keys.contains(keys[i]));
    }
    lemma_without_keys(v, from, keys);
    lemma_without_keys_removes(v, from, keys);
    // Every key that is read is that of a quad of the graph.
    assert forall|i: int| 0 <= i < keys.len() implies (parse_quad(from, #[trigger] keys[i])->Ok_0).graph_name
        == g by {
        let k = keys[i];
        assert(keys.contains(k));
        assert(index_coherent(v, from));
        assert(row_coherent(v, from, k));
        lemma_graph_key(v, g, parse_quad(from, k)->Ok_0);
    }
    assert forall|cf: ColumnFamily| #[trigger] v2[cf] == target[cf] by {
        match family_encoding(cf) {
            None => {},
            Some(encoding) => {
                assert(encoding.spec_family() == cf);
                assert(index_coherent(v, encoding));
                assert(index_coherent(v2, encoding));
                assert forall|k: Seq<u8>| v2[cf].contains_key(k) == target[cf].contains_key(
                    k,
                ) by {
                    if v2[cf].contains_key(k) {
                        assert(v[cf].contains_key(k));
                        assert(row_coherent(v2, encoding, k));
                        let q = parse_quad(encoding, k)->Ok_0;
                        if q.graph_name == g {
                            lemma_graph_key(v, g, q);
                            let key = quad_key(from, q);
                            assert(key_in(v2, from, q));
                            assert(v[from.spec_family()].contains_key(key));
                            assert(keys.contains(key));
                            let i = choose|i: int| 0 <= i < keys.len() && keys[i] == key;
                            assert(!v2[from.spec_family()].contains_key(keys[i]));
                        }
                    }
                    if target[cf].contains_key(k) {
                        assert(row_coherent(v, encoding, k));
                        let q = parse_quad(encoding, k)->Ok_0;
                        lemma_without_keys_keeps(v, from, keys, encoding, q);
                    }
                }
                assert forall|k: Seq<u8>| v2[cf].contains_key(k) implies v2[cf][k]
                    == target[cf][k] by {
                    assert(v[cf].contains_key(k));
                }
                assert(v2[cf] =~= target[cf]);
            },
        }
    }
    assert(v2 =~= target);
}

} // verus!
