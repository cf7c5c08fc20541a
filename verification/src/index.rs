//! The rule of the indexes: every quad of the default graph stands in the
//! three indexes without graph name, every other quad in the six indexes
//! with graph name and its graph name in the set of graphs.

use vstd::prelude::*;
use crate::backend::ColumnFamily;
use crate::backend::DbView;
use crate::binary_encoder::lemma_quad_key_injective;
use crate::binary_encoder::lemma_quad_round_trip;
use crate::binary_encoder::lemma_parse_term_bytes;
use crate::binary_encoder::parse_quad;
use crate::binary_encoder::parse_term;
use crate::binary_encoder::quad_key;
use crate::binary_encoder::term_bytes;
use crate::binary_encoder::QuadEncoding;
use crate::numeric_encoder::EncodedQuad;

verus! {

impl QuadEncoding {
    /// The column family that holds the keys of this encoding.
    pub open spec fn spec_family(self) -> ColumnFamily {
        match self {
            QuadEncoding::Spog => ColumnFamily::Spog,
            QuadEncoding::Posg => ColumnFamily::Posg,
            QuadEncoding::Ospg => ColumnFamily::Ospg,
            QuadEncoding::Gspo => ColumnFamily::Gspo,
            QuadEncoding::Gpos => ColumnFamily::Gpos,
            QuadEncoding::Gosp => ColumnFamily::Gosp,
            QuadEncoding::Dspo => ColumnFamily::Dspo,
            QuadEncoding::Dpos => ColumnFamily::Dpos,
            QuadEncoding::Dosp => ColumnFamily::Dosp,
        }
    }

    /// The column family that holds the keys of this encoding.
    pub fn family(self) -> (cf: ColumnFamily)
        ensures
            cf == self.spec_family(),
    {
        match self {
            QuadEncoding::Spog => ColumnFamily::Spog,
            QuadEncoding::Posg => ColumnFamily::Posg,
            QuadEncoding::Ospg => ColumnFamily::Ospg,
            QuadEncoding::Gspo => ColumnFamily::Gspo,
            QuadEncoding::Gpos => ColumnFamily::Gpos,
            QuadEncoding::Gosp => ColumnFamily::Gosp,
            QuadEncoding::Dspo => ColumnFamily::Dspo,
            QuadEncoding::Dpos => ColumnFamily::Dpos,
            QuadEncoding::Dosp => ColumnFamily::Dosp,
        }
    }
}

/// Whether the content gives every column family finitely many rows.
pub open spec fn view_wf(v: DbView) -> bool {
    &&& forall|cf: ColumnFamily| #[trigger] v.contains_key(cf)
    &&& forall|cf: ColumnFamily| (#[trigger] v[cf]).dom().finite()
}

/// Whether the index of `encoding` holds the key of `q`.
pub open spec fn key_in(v: DbView, encoding: QuadEncoding, q: EncodedQuad) -> bool {
    v[encoding.spec_family()].contains_key(quad_key(encoding, q))
}

/// The index that is asked whether a quad is stored.
pub open spec fn primary(q: EncodedQuad) -> QuadEncoding {
    if q.graph_name is DefaultGraph {
        QuadEncoding::Dspo
    } else {
        QuadEncoding::Spog
    }
}

/// Whether every index of the group of `q` holds the key of `q`, and the
/// set of graphs its graph name if it has one.
pub open spec fn present_everywhere(v: DbView, q: EncodedQuad) -> bool {
    if q.graph_name is DefaultGraph {
        &&& key_in(v, QuadEncoding::Dspo, q)
        &&& key_in(v, QuadEncoding::Dpos, q)
        &&& key_in(v, QuadEncoding::Dosp, q)
    } else {
        &&& key_in(v, QuadEncoding::Spog, q)
        &&& key_in(v, QuadEncoding::Posg, q)
        &&& key_in(v, QuadEncoding::Ospg, q)
        &&& key_in(v, QuadEncoding::Gspo, q)
        &&& key_in(v, QuadEncoding::Gpos, q)
        &&& key_in(v, QuadEncoding::Gosp, q)
        &&& v[ColumnFamily::Graphs].contains_key(term_bytes(q.graph_name))
    }
}

/// Whether a key of an index is the key of a well-formed quad that every
/// index of its group holds.
pub open spec fn row_coherent(v: DbView, encoding: QuadEncoding, k: Seq<u8>) -> bool {
    match parse_quad(encoding, k) {
        Ok(q) => q.wf() && encoding.holds(q) && quad_key(encoding, q) == k && present_everywhere(
            v,
            q,
        ),
        Err(_) => false,
    }
}

/// Whether the indexes of each group have the same number of rows.
pub open spec fn counts_agree(v: DbView) -> bool {
    &&& v[ColumnFamily::Dspo].len() == v[ColumnFamily::Dpos].len()
    &&& v[ColumnFamily::Dspo].len() == v[ColumnFamily::Dosp].len()
    &&& v[ColumnFamily::Gspo].len() == v[ColumnFamily::Gpos].len()
    &&& v[ColumnFamily::Gspo].len() == v[ColumnFamily::Gosp].len()
    &&& v[ColumnFamily::Gspo].len() == v[ColumnFamily::Spog].len()
    &&& v[ColumnFamily::Gspo].len() == v[ColumnFamily::Posg].len()
    &&& v[ColumnFamily::Gspo].len() == v[ColumnFamily::Ospg].len()
}

/// Whether every row of an index is coherent.
pub open spec fn index_coherent(v: DbView, encoding: QuadEncoding) -> bool {
    forall|k: Seq<u8>| #[trigger]
        v[encoding.spec_family()].contains_key(k) ==> row_coherent(v, encoding, k)
}

/// Whether a key of the set of graphs is the binary form of a well-formed
/// term.
pub open spec fn graph_row_coherent(k: Seq<u8>) -> bool {
    match parse_term(k) {
        Ok((g, n)) => g.wf() && term_bytes(g) == k,
        Err(_) => false,
    }
}

/// Whether every key of the set of graphs is the binary form of a term.
pub open spec fn graphs_coherent(v: DbView) -> bool {
    forall|k: Seq<u8>| #[trigger] v[ColumnFamily::Graphs].contains_key(k) ==> graph_row_coherent(k)
}

/// The invariant of the indexes: the indexes of a group have the same
/// number of rows, every row of an index is the key of a quad that all
/// indexes of the group hold and whose graph name the set of graphs
/// holds, and every row of the set of graphs is the binary form of a
/// term.
pub open spec fn coherent(v: DbView) -> bool {
    &&& view_wf(v)
    &&& counts_agree(v)
    &&& graphs_coherent(v)
    &&& forall|encoding: QuadEncoding| #[trigger] index_coherent(v, encoding)
}

/// The binary form of a well-formed term is a coherent row of the set of
/// graphs.
pub proof fn lemma_graph_row(g: crate::numeric_encoder::EncodedTerm)
    requires
        g.wf(),
    ensures
        graph_row_coherent(term_bytes(g)),
{
    lemma_parse_term_bytes(g, Seq::empty());
    assert(term_bytes(g) + Seq::<u8>::empty() =~= term_bytes(g));
}

/// The content with one more key, of empty value, in one index.
pub open spec fn with_key(v: DbView, encoding: QuadEncoding, q: EncodedQuad) -> DbView {
    v.insert(
        encoding.spec_family(),
        v[encoding.spec_family()].insert(quad_key(encoding, q), Seq::<u8>::empty()),
    )
}

/// The content without one key of one index.
pub open spec fn without_key(v: DbView, encoding: QuadEncoding, q: EncodedQuad) -> DbView {
    v.insert(encoding.spec_family(), v[encoding.spec_family()].remove(quad_key(encoding, q)))
}

/// The content with one more graph name, unless it is there already.
pub open spec fn with_graph(v: DbView, g: Seq<u8>) -> DbView {
    if v[ColumnFamily::Graphs].contains_key(g) {
        v
    } else {
        v.insert(ColumnFamily::Graphs, v[ColumnFamily::Graphs].insert(g, Seq::<u8>::empty()))
    }
}

/// The content with the keys of `q` in every index of its group, and with
/// its graph name if it has one.
pub open spec fn with_quad(v: DbView, q: EncodedQuad) -> DbView {
    if q.graph_name is DefaultGraph {
        with_key(
            with_key(with_key(v, QuadEncoding::Dspo, q), QuadEncoding::Dpos, q),
            QuadEncoding::Dosp,
            q,
        )
    } else {
        with_graph(
            with_key(
                with_key(
                    with_key(
                        with_key(
                            with_key(with_key(v, QuadEncoding::Spog, q), QuadEncoding::Posg, q),
                            QuadEncoding::Ospg,
                            q,
                        ),
                        QuadEncoding::Gspo,
                        q,
                    ),
                    QuadEncoding::Gpos,
                    q,
                ),
                QuadEncoding::Gosp,
                q,
            ),
            term_bytes(q.graph_name),
        )
    }
}

/// The content without the keys of `q` in the indexes of its group. The
/// set of graphs stays as it is.
pub open spec fn without_quad(v: DbView, q: EncodedQuad) -> DbView {
    if q.graph_name is DefaultGraph {
        without_key(
            without_key(without_key(v, QuadEncoding::Dspo, q), QuadEncoding::Dpos, q),
            QuadEncoding::Dosp,
            q,
        )
    } else {
        without_key(
            without_key(
                without_key(
                    without_key(
                        without_key(without_key(v, QuadEncoding::Spog, q), QuadEncoding::Posg, q),
                        QuadEncoding::Ospg,
                        q,
                    ),
                    QuadEncoding::Gspo,
                    q,
                ),
                QuadEncoding::Gpos,
                q,
            ),
            QuadEncoding::Gosp,
            q,
        )
    }
}

/// In coherent indexes a quad that one index of its group holds is held
/// by all of them.
pub proof fn lemma_coherent_row(v: DbView, encoding: QuadEncoding, q: EncodedQuad)
    requires
        coherent(v),
        q.wf(),
        encoding.holds(q),
        key_in(v, encoding, q),
    ensures
        present_everywhere(v, q),
{
    assert(index_coherent(v, encoding));
    lemma_quad_round_trip(encoding, q, Seq::empty());
    assert(quad_key(encoding, q) + Seq::<u8>::empty() =~= quad_key(encoding, q));
    assert(row_coherent(v, encoding, quad_key(encoding, q)));
}

/// What adding a quad does to each column family.
pub proof fn lemma_with_quad_tables(v: DbView, q: EncodedQuad)
    requires
        view_wf(v),
    ensures
        view_wf(with_quad(v, q)),
        forall|encoding: QuadEncoding|
            #![trigger encoding.spec_family()]
            with_quad(v, q)[encoding.spec_family()] == (if encoding.holds(q) {
                v[encoding.spec_family()].insert(quad_key(encoding, q), Seq::<u8>::empty())
            } else {
                v[encoding.spec_family()]
            }),
        with_quad(v, q)[ColumnFamily::Default] == v[ColumnFamily::Default],
        with_quad(v, q)[ColumnFamily::Id2Str] == v[ColumnFamily::Id2Str],
        with_quad(v, q)[ColumnFamily::Graphs] == (if q.graph_name is DefaultGraph
            || v[ColumnFamily::Graphs].contains_key(term_bytes(q.graph_name)) {
            v[ColumnFamily::Graphs]
        } else {
            v[ColumnFamily::Graphs].insert(term_bytes(q.graph_name), Seq::<u8>::empty())
        }),
{
    let v2 = with_quad(v, q);
    assert forall|cf: ColumnFamily| #[trigger] v2.contains_key(cf) && v2[cf].dom().finite() by {
        assert(v.contains_key(cf));
        assert(v[cf].dom().finite());
    }
}

/// What removing a quad does to each column family.
pub proof fn lemma_without_quad_tables(v: DbView, q: EncodedQuad)
    requires
        view_wf(v),
    ensures
        view_wf(without_quad(v, q)),
        forall|encoding: QuadEncoding|
            #![trigger encoding.spec_family()]
            without_quad(v, q)[encoding.spec_family()] == (if encoding.holds(q) {
                v[encoding.spec_family()].remove(quad_key(encoding, q))
            } else {
                v[encoding.spec_family()]
            }),
        without_quad(v, q)[ColumnFamily::Default] == v[ColumnFamily::Default],
        without_quad(v, q)[ColumnFamily::Id2Str] == v[ColumnFamily::Id2Str],
        without_quad(v, q)[ColumnFamily::Graphs] == v[ColumnFamily::Graphs],
{
    let v2 = without_quad(v, q);
    assert forall|cf: ColumnFamily| #[trigger] v2.contains_key(cf) && v2[cf].dom().finite() by {
        assert(v.contains_key(cf));
        assert(v[cf].dom().finite());
    }
}

/// Adding a well-formed quad that is not stored keeps the indexes
/// coherent.
#[verifier::rlimit(30)]
pub proof fn lemma_with_quad_coherent(v: DbView, q: EncodedQuad)
    requires
        coherent(v),
        q.wf(),
        !key_in(v, primary(q), q),
    ensures
        coherent(with_quad(v, q)),
{
    let v2 = with_quad(v, q);
    lemma_with_quad_tables(v, q);
    assert(graphs_coherent(v2)) by {
        if !(q.graph_name is DefaultGraph) {
            lemma_graph_row(q.graph_name);
        }
    }
    assert forall|encoding: QuadEncoding| encoding.holds(q) implies !key_in(v, encoding, q) by {
        if key_in(v, encoding, q) {
            lemma_coherent_row(v, encoding, q);
        }
    }
    assert(present_everywhere(v2, q)) by {
        assert(QuadEncoding::Dspo.spec_family() == ColumnFamily::Dspo);
        assert(QuadEncoding::Dpos.spec_family() == ColumnFamily::Dpos);
        assert(QuadEncoding::Dosp.spec_family() == ColumnFamily::Dosp);
        assert(QuadEncoding::Spog.spec_family() == ColumnFamily::Spog);
        assert(QuadEncoding::Posg.spec_family() == ColumnFamily::Posg);
        assert(QuadEncoding::Ospg.spec_family() == ColumnFamily::Ospg);
        assert(QuadEncoding::Gspo.spec_family() == ColumnFamily::Gspo);
        assert(QuadEncoding::Gpos.spec_family() == ColumnFamily::Gpos);
        assert(QuadEncoding::Gosp.spec_family() == ColumnFamily::Gosp);
    }
    assert forall|encoding: QuadEncoding| #[trigger] index_coherent(v2, encoding) by {
        assert(index_coherent(v, encoding));
        assert forall|k: Seq<u8>| #[trigger]
            v2[encoding.spec_family()].contains_key(k) implies row_coherent(v2, encoding, k) by {
            if encoding.holds(q) && k == quad_key(encoding, q) {
                lemma_quad_round_trip(encoding, q, Seq::empty());
                assert(k + Seq::<u8>::empty() =~= k);
            } else {
                assert(v[encoding.spec_family()].contains_key(k));
                assert(row_coherent(v, encoding, k));
                let old_q = parse_quad(encoding, k)->Ok_0;
                lemma_present_grows(v, v2, old_q);
            }
        }
    }
    assert(counts_agree(v2)) by {
        assert(!key_in(v, QuadEncoding::Dspo, q) || !QuadEncoding::Dspo.holds(q));
        assert(!key_in(v, QuadEncoding::Dpos, q) || !QuadEncoding::Dpos.holds(q));
        assert(!key_in(v, QuadEncoding::Dosp, q) || !QuadEncoding::Dosp.holds(q));
        assert(!key_in(v, QuadEncoding::Spog, q) || !QuadEncoding::Spog.holds(q));
        assert(!key_in(v, QuadEncoding::Posg, q) || !QuadEncoding::Posg.holds(q));
        assert(!key_in(v, QuadEncoding::Ospg, q) || !QuadEncoding::Ospg.holds(q));
        assert(!key_in(v, QuadEncoding::Gspo, q) || !QuadEncoding::Gspo.holds(q));
        assert(!key_in(v, QuadEncoding::Gpos, q) || !QuadEncoding::Gpos.holds(q));
        assert(!key_in(v, QuadEncoding::Gosp, q) || !QuadEncoding::Gosp.holds(q));
        lemma_count_after(v, v2, QuadEncoding::Dspo, q);
        lemma_count_after(v, v2, QuadEncoding::Dpos, q);
        lemma_count_after(v, v2, QuadEncoding::Dosp, q);
        lemma_count_after(v, v2, QuadEncoding::Spog, q);
        lemma_count_after(v, v2, QuadEncoding::Posg, q);
        lemma_count_after(v, v2, QuadEncoding::Ospg, q);
        lemma_count_after(v, v2, QuadEncoding::Gspo, q);
        lemma_count_after(v, v2, QuadEncoding::Gpos, q);
        lemma_count_after(v, v2, QuadEncoding::Gosp, q);
    }
}

/// The number of rows of an index after a change of one key.
proof fn lemma_count_after(v: DbView, v2: DbView, encoding: QuadEncoding, q: EncodedQuad)
    requires
        view_wf(v),
    ensures
        v2[encoding.spec_family()] == v[encoding.spec_family()] ==> v2[encoding.spec_family()].len()
            == v[encoding.spec_family()].len(),
        !key_in(v, encoding, q) && v2[encoding.spec_family()] == v[encoding.spec_family()].insert(
            quad_key(encoding, q),
            Seq::<u8>::empty(),
        ) ==> v2[encoding.spec_family()].len() == v[encoding.spec_family()].len() + 1,
        key_in(v, encoding, q) && v2[encoding.spec_family()] == v[encoding.spec_family()].remove(
            quad_key(encoding, q),
        ) ==> v2[encoding.spec_family()].len() == v[encoding.spec_family()].len() - 1,
{
    broadcast use vstd::set::group_set_axioms;
    broadcast use vstd::map::group_map_axioms;

    let m = v[encoding.spec_family()];
    assert(m.dom().finite());
}

/// What all indexes hold, they hold after their key sets have grown.
proof fn lemma_present_grows(v: DbView, v2: DbView, q: EncodedQuad)
    requires
        present_everywhere(v, q),
        forall|cf: ColumnFamily, k: Seq<u8>|
            cf != ColumnFamily::Default && cf != ColumnFamily::Id2Str && #[trigger] v[cf].contains_key(
                k,
            ) ==> v2[cf].contains_key(k),
    ensures
        present_everywhere(v2, q),
{
    assert(QuadEncoding::Dspo.spec_family() == ColumnFamily::Dspo);
    assert(QuadEncoding::Dpos.spec_family() == ColumnFamily::Dpos);
    assert(QuadEncoding::Dosp.spec_family() == ColumnFamily::Dosp);
    assert(QuadEncoding::Spog.spec_family() == ColumnFamily::Spog);
    assert(QuadEncoding::Posg.spec_family() == ColumnFamily::Posg);
    assert(QuadEncoding::Ospg.spec_family() == ColumnFamily::Ospg);
    assert(QuadEncoding::Gspo.spec_family() == ColumnFamily::Gspo);
    assert(QuadEncoding::Gpos.spec_family() == ColumnFamily::Gpos);
    assert(QuadEncoding::Gosp.spec_family() == ColumnFamily::Gosp);
}

/// Whether a row of an index decodes to a quad that is where it has to
/// be: every index of its group holds its key, and the set of graphs
/// holds its graph name if it has one.
pub open spec fn row_valid(v: DbView, encoding: QuadEncoding, k: Seq<u8>) -> bool {
    parse_quad(encoding, k) matches Ok(q) && present_everywhere(v, q)
}

/// Whether every row of an index is valid.
pub open spec fn index_valid(v: DbView, encoding: QuadEncoding) -> bool {
    forall|k: Seq<u8>| #[trigger] v[encoding.spec_family()].contains_key(k) ==> row_valid(v, encoding, k)
}

/// What a validation asks of the indexes: the indexes of each group have
/// the same number of rows, and every row of every index decodes to a
/// quad whose key every index of its group holds, and whose graph name
/// the set of graphs holds if it has one. A key may hold more than the
/// quad that it decodes to.
pub open spec fn consistent(v: DbView) -> bool {
    &&& view_wf(v)
    &&& counts_agree(v)
    &&& forall|encoding: QuadEncoding| #[trigger] index_valid(v, encoding)
}

/// In consistent indexes, a well-formed quad whose key one index of its
/// group holds has its key in every index of the group.
pub proof fn lemma_consistent_row(v: DbView, encoding: QuadEncoding, q: EncodedQuad)
    requires
        consistent(v),
        q.wf(),
        encoding.holds(q),
        key_in(v, encoding, q),
    ensures
        present_everywhere(v, q),
{
    assert(index_valid(v, encoding));
    lemma_quad_round_trip(encoding, q, Seq::empty());
    assert(quad_key(encoding, q) + Seq::<u8>::empty() =~= quad_key(encoding, q));
    assert(row_valid(v, encoding, quad_key(encoding, q)));
}

/// Adding a well-formed quad that is not stored keeps the indexes
/// consistent.
#[verifier::rlimit(30)]
pub proof fn lemma_with_quad_consistent(v: DbView, q: EncodedQuad)
    requires
        consistent(v),
        q.wf(),
        !key_in(v, primary(q), q),
    ensures
        consistent(with_quad(v, q)),
{
    let v2 = with_quad(v, q);
    lemma_with_quad_tables(v, q);
    assert forall|encoding: QuadEncoding| encoding.holds(q) implies !key_in(v, encoding, q) by {
        if key_in(v, encoding, q) {
            lemma_consistent_row(v, encoding, q);
        }
    }
    assert(present_everywhere(v2, q)) by {
        assert(QuadEncoding::Dspo.spec_family() == ColumnFamily::Dspo);
        assert(QuadEncoding::Dpos.spec_family() == ColumnFamily::Dpos);
        assert(QuadEncoding::Dosp.spec_family() == ColumnFamily::Dosp);
        assert(QuadEncoding::Spog.spec_family() == ColumnFamily::Spog);
        assert(QuadEncoding::Posg.spec_family() == ColumnFamily::Posg);
        assert(QuadEncoding::Ospg.spec_family() == ColumnFamily::Ospg);
        assert(QuadEncoding::Gspo.spec_family() == ColumnFamily::Gspo);
        assert(QuadEncoding::Gpos.spec_family() == ColumnFamily::Gpos);
        assert(QuadEncoding::Gosp.spec_family() == ColumnFamily::Gosp);
    }
    assert forall|encoding: QuadEncoding| #[trigger] index_valid(v2, encoding) by {
        assert(index_valid(v, encoding));
        assert forall|k: Seq<u8>| #[trigger]
            v2[encoding.spec_family()].contains_key(k) implies row_valid(v2, encoding, k) by {
            if encoding.holds(q) && k == quad_key(encoding, q) {
                lemma_quad_round_trip(encoding, q, Seq::empty());
                assert(k + Seq::<u8>::empty() =~= k);
            } else {
                assert(v[encoding.spec_family()].contains_key(k));
                assert(row_valid(v, encoding, k));
                let old_q = parse_quad(encoding, k)->Ok_0;
                lemma_present_grows(v, v2, old_q);
            }
        }
    }
    assert(counts_agree(v2)) by {
        assert(!key_in(v, QuadEncoding::Dspo, q) || !QuadEncoding::Dspo.holds(q));
        assert(!key_in(v, QuadEncoding::Dpos, q) || !QuadEncoding::Dpos.holds(q));
        assert(!key_in(v, QuadEncoding::Dosp, q) || !QuadEncoding::Dosp.holds(q));
        assert(!key_in(v, QuadEncoding::Spog, q) || !QuadEncoding::Spog.holds(q));
        assert(!key_in(v, QuadEncoding::Posg, q) || !QuadEncoding::Posg.holds(q));
        assert(!key_in(v, QuadEncoding::Ospg, q) || !QuadEncoding::Ospg.holds(q));
        assert(!key_in(v, QuadEncoding::Gspo, q) || !QuadEncoding::Gspo.holds(q));
        assert(!key_in(v, QuadEncoding::Gpos, q) || !QuadEncoding::Gpos.holds(q));
        assert(!key_in(v, QuadEncoding::Gosp, q) || !QuadEncoding::Gosp.holds(q));
        lemma_count_after(v, v2, QuadEncoding::Dspo, q);
        lemma_count_after(v, v2, QuadEncoding::Dpos, q);
        lemma_count_after(v, v2, QuadEncoding::Dosp, q);
        lemma_count_after(v, v2, QuadEncoding::Spog, q);
        lemma_count_after(v, v2, QuadEncoding::Posg, q);
        lemma_count_after(v, v2, QuadEncoding::Ospg, q);
        lemma_count_after(v, v2, QuadEncoding::Gspo, q);
        lemma_count_after(v, v2, QuadEncoding::Gpos, q);
        lemma_count_after(v, v2, QuadEncoding::Gosp, q);
    }
}

/// Removing a well-formed quad that is stored keeps the indexes coherent.
#[verifier::rlimit(30)]
pub proof fn lemma_without_quad_coherent(v: DbView, q: EncodedQuad)
    requires
        coherent(v),
        q.wf(),
        key_in(v, primary(q), q),
    ensures
        coherent(without_quad(v, q)),
{
    let v2 = without_quad(v, q);
    lemma_without_quad_tables(v, q);
    lemma_coherent_row(v, primary(q), q);
    assert forall|encoding: QuadEncoding| #[trigger] index_coherent(v2, encoding) by {
        assert(index_coherent(v, encoding));
        assert forall|k: Seq<u8>| #[trigger]
            v2[encoding.spec_family()].contains_key(k) implies row_coherent(v2, encoding, k) by {
            assert(v[encoding.spec_family()].contains_key(k));
            assert(row_coherent(v, encoding, k));
            let old_q = parse_quad(encoding, k)->Ok_0;
            if old_q == q {
                assert(false);
            }
            lemma_present_stays(v, v2, old_q, q);
        }
    }
    assert(counts_agree(v2)) by {
        assert(QuadEncoding::Dspo.spec_family() == ColumnFamily::Dspo);
        assert(QuadEncoding::Dpos.spec_family() == ColumnFamily::Dpos);
        assert(QuadEncoding::Dosp.spec_family() == ColumnFamily::Dosp);
        assert(QuadEncoding::Spog.spec_family() == ColumnFamily::Spog);
        assert(QuadEncoding::Posg.spec_family() == ColumnFamily::Posg);
        assert(QuadEncoding::Ospg.spec_family() == ColumnFamily::Ospg);
        assert(QuadEncoding::Gspo.spec_family() == ColumnFamily::Gspo);
        assert(QuadEncoding::Gpos.spec_family() == ColumnFamily::Gpos);
        assert(QuadEncoding::Gosp.spec_family() == ColumnFamily::Gosp);
        lemma_count_after(v, v2, QuadEncoding::Dspo, q);
        lemma_count_after(v, v2, QuadEncoding::Dpos, q);
        lemma_count_after(v, v2, QuadEncoding::Dosp, q);
        lemma_count_after(v, v2, QuadEncoding::Spog, q);
        lemma_count_after(v, v2, QuadEncoding::Posg, q);
        lemma_count_after(v, v2, QuadEncoding::Ospg, q);
        lemma_count_after(v, v2, QuadEncoding::Gspo, q);
        lemma_count_after(v, v2, QuadEncoding::Gpos, q);
        lemma_count_after(v, v2, QuadEncoding::Gosp, q);
    }
}

/// What all indexes hold of one quad, they hold after the keys of another
/// quad were removed.
proof fn lemma_present_stays(v: DbView, v2: DbView, kept: EncodedQuad, gone: EncodedQuad)
    requires
        present_everywhere(v, kept),
        kept.wf(),
        gone.wf(),
        kept != gone,
        v2[ColumnFamily::Graphs] == v[ColumnFamily::Graphs],
        forall|encoding: QuadEncoding|
            #![trigger encoding.spec_family()]
            v2[encoding.spec_family()] == (if encoding.holds(gone) {
                v[encoding.spec_family()].remove(quad_key(encoding, gone))
            } else {
                v[encoding.spec_family()]
            }),
    ensures
        present_everywhere(v2, kept),
{
    assert forall|encoding: QuadEncoding| encoding.holds(kept) && key_in(
        v,
        encoding,
        kept,
    ) implies key_in(v2, encoding, kept) by {
        let f = encoding.spec_family();
        if encoding.holds(gone) && quad_key(encoding, kept) == quad_key(encoding, gone) {
            lemma_quad_key_injective(encoding, kept, gone);
        }
    }
    assert(QuadEncoding::Dspo.holds(kept) == (kept.graph_name is DefaultGraph));
    assert(QuadEncoding::Dpos.holds(kept) == (kept.graph_name is DefaultGraph));
    assert(QuadEncoding::Dosp.holds(kept) == (kept.graph_name is DefaultGraph));
    assert(QuadEncoding::Spog.holds(kept) == !(kept.graph_name is DefaultGraph));
    assert(QuadEncoding::Posg.holds(kept) == !(kept.graph_name is DefaultGraph));
    assert(QuadEncoding::Ospg.holds(kept) == !(kept.graph_name is DefaultGraph));
    assert(QuadEncoding::Gspo.holds(kept) == !(kept.graph_name is DefaultGraph));
    assert(QuadEncoding::Gpos.holds(kept) == !(kept.graph_name is DefaultGraph));
    assert(QuadEncoding::Gosp.holds(kept) == !(kept.graph_name is DefaultGraph));
}

/// Whether two contents have the same rows in the nine indexes.
pub open spec fn same_indexes(v: DbView, v2: DbView) -> bool {
    &&& v2[ColumnFamily::Spog] == v[ColumnFamily::Spog]
    &&& v2[ColumnFamily::Posg] == v[ColumnFamily::Posg]
    &&& v2[ColumnFamily::Ospg] == v[ColumnFamily::Ospg]
    &&& v2[ColumnFamily::Gspo] == v[ColumnFamily::Gspo]
    &&& v2[ColumnFamily::Gpos] == v[ColumnFamily::Gpos]
    &&& v2[ColumnFamily::Gosp] == v[ColumnFamily::Gosp]
    &&& v2[ColumnFamily::Dspo] == v[ColumnFamily::Dspo]
    &&& v2[ColumnFamily::Dpos] == v[ColumnFamily::Dpos]
    &&& v2[ColumnFamily::Dosp] == v[ColumnFamily::Dosp]
}

/// Whether the set of graphs holds the graph name of a quad, if the quad
/// has one.
pub open spec fn graph_known(v: DbView, q: EncodedQuad) -> bool {
    q.graph_name is DefaultGraph || v[ColumnFamily::Graphs].contains_key(term_bytes(q.graph_name))
}

/// What the indexes hold of a quad, they hold whatever the rows of the
/// other column families are, as long as the set of graphs holds the
/// graph name of the quad.
pub proof fn lemma_row_coherent_frame(v: DbView, v2: DbView, encoding: QuadEncoding, k: Seq<u8>)
    requires
        row_coherent(v, encoding, k),
        same_indexes(v, v2),
        graph_known(v2, parse_quad(encoding, k)->Ok_0),
    ensures
        row_coherent(v2, encoding, k),
{
    let q = parse_quad(encoding, k)->Ok_0;
    assert(QuadEncoding::Dspo.spec_family() == ColumnFamily::Dspo);
    assert(QuadEncoding::Dpos.spec_family() == ColumnFamily::Dpos);
    assert(QuadEncoding::Dosp.spec_family() == ColumnFamily::Dosp);
    assert(QuadEncoding::Spog.spec_family() == ColumnFamily::Spog);
    assert(QuadEncoding::Posg.spec_family() == ColumnFamily::Posg);
    assert(QuadEncoding::Ospg.spec_family() == ColumnFamily::Ospg);
    assert(QuadEncoding::Gspo.spec_family() == ColumnFamily::Gspo);
    assert(QuadEncoding::Gpos.spec_family() == ColumnFamily::Gpos);
    assert(QuadEncoding::Gosp.spec_family() == ColumnFamily::Gosp);
    assert(present_everywhere(v2, q));
}

/// An index stays coherent whatever the rows of the other column families
/// become, as long as the set of graphs holds the graph names of its
/// quads.
#[verifier::rlimit(30)]
pub proof fn lemma_index_coherent_frame(v: DbView, v2: DbView, encoding: QuadEncoding)
    requires
        index_coherent(v, encoding),
        same_indexes(v, v2),
        forall|k: Seq<u8>| #[trigger]
            v[encoding.spec_family()].contains_key(k) ==> graph_known(
                v2,
                parse_quad(encoding, k)->Ok_0,
            ),
    ensures
        index_coherent(v2, encoding),
{
    assert forall|k: Seq<u8>| #[trigger]
        v2[encoding.spec_family()].contains_key(k) implies row_coherent(v2, encoding, k) by {
        assert(v[encoding.spec_family()].contains_key(k));
        assert(row_coherent(v, encoding, k));
        lemma_row_coherent_frame(v, v2, encoding, k);
    }
}

/// Coherent indexes stay coherent whatever the rows of the string table
/// and of the default column family become, as long as the set of graphs
/// loses no row.
#[verifier::rlimit(30)]
pub proof fn lemma_coherent_frame(v: DbView, v2: DbView)
    requires
        coherent(v),
        view_wf(v2),
        same_indexes(v, v2),
        forall|g: Seq<u8>| #[trigger]
            v[ColumnFamily::Graphs].contains_key(g) ==> v2[ColumnFamily::Graphs].contains_key(g),
        graphs_coherent(v2),
    ensures
        coherent(v2),
{
    assert forall|encoding: QuadEncoding| #[trigger] index_coherent(v2, encoding) by {
        assert(index_coherent(v, encoding));
        assert forall|k: Seq<u8>| #[trigger]
            v[encoding.spec_family()].contains_key(k) implies graph_known(
            v2,
            parse_quad(encoding, k)->Ok_0,
        ) by {
            assert(row_coherent(v, encoding, k));
        }
        lemma_index_coherent_frame(v, v2, encoding);
    }
}

/// The key of a quad in the index `gspo` starts with its graph name.
pub proof fn lemma_gspo_prefix(q: EncodedQuad)
    ensures
        crate::backend::is_prefix(term_bytes(q.graph_name), quad_key(QuadEncoding::Gspo, q)),
{
    crate::binary_encoder::lemma_terms_bytes_unfold(
        q.graph_name,
        q.subject,
        q.predicate,
        q.object,
    );
    let rest = term_bytes(q.subject) + term_bytes(q.predicate) + term_bytes(q.object);
    let key = quad_key(QuadEncoding::Gspo, q);
    assert(key =~= term_bytes(q.graph_name) + rest);
    assert(key.subrange(0, term_bytes(q.graph_name).len() as int) =~= term_bytes(q.graph_name));
}

/// In coherent indexes whose index `gspo` has no key that starts with a
/// graph name, the graph name can leave the set of graphs.
#[verifier::rlimit(30)]
pub proof fn lemma_graph_leaves(v: DbView, g: Seq<u8>)
    requires
        coherent(v),
        forall|k: Seq<u8>| #[trigger]
            v[ColumnFamily::Gspo].contains_key(k) ==> !crate::backend::is_prefix(g, k),
    ensures
        coherent(v.insert(ColumnFamily::Graphs, v[ColumnFamily::Graphs].remove(g))),
{
    let v2 = v.insert(ColumnFamily::Graphs, v[ColumnFamily::Graphs].remove(g));
    assert forall|cf: ColumnFamily| #[trigger] v2.contains_key(cf) && v2[cf].dom().finite() by {
        assert(v.contains_key(cf));
        assert(v[cf].dom().finite());
    }
    assert forall|encoding: QuadEncoding| #[trigger] index_coherent(v2, encoding) by {
        assert(index_coherent(v, encoding));
        assert forall|k: Seq<u8>| #[trigger]
            v[encoding.spec_family()].contains_key(k) implies graph_known(
            v2,
            parse_quad(encoding, k)->Ok_0,
        ) by {
            assert(row_coherent(v, encoding, k));
            let q = parse_quad(encoding, k)->Ok_0;
            if !(q.graph_name is DefaultGraph) {
                lemma_graph_not_gone(v, q, g);
            }
        }
        lemma_index_coherent_frame(v, v2, encoding);
    }
}

/// The graph name of a quad that the index `gspo` holds is not one with
/// which no key of that index starts.
proof fn lemma_graph_not_gone(v: DbView, q: EncodedQuad, g: Seq<u8>)
    requires
        present_everywhere(v, q),
        !(q.graph_name is DefaultGraph),
        forall|k: Seq<u8>| #[trigger]
            v[ColumnFamily::Gspo].contains_key(k) ==> !crate::backend::is_prefix(g, k),
    ensures
        term_bytes(q.graph_name) != g,
{
    lemma_gspo_prefix(q);
    assert(QuadEncoding::Gspo.spec_family() == ColumnFamily::Gspo);
    assert(v[ColumnFamily::Gspo].contains_key(quad_key(QuadEncoding::Gspo, q)));
}

} // verus!
