//! The time-zone offset that the binary form cannot hold. The two bytes of
//! the offset of one minute west are those of an absent offset, so a
//! timestamp with this offset is written, and stored, as the timestamp
//! without offset. Whatever is shown of the quads whose timestamps can be
//! written therefore holds of all quads.

use vstd::prelude::*;
use crate::backend::DbView;
use crate::binary_encoder::no_offset_bytes;
use crate::binary_encoder::quad_key;
use crate::binary_encoder::term_bytes;
use crate::binary_encoder::terms_bytes;
use crate::binary_encoder::timestamp_bytes;
use crate::binary_encoder::QuadEncoding;
use crate::endian::be_bytes;
use crate::endian::i16_bytes;
use crate::model::Literal;
use crate::model::Quad;
use crate::model::Term;
use crate::model::Triple;
use crate::numeric_encoder::encode_model_quad;
use crate::numeric_encoder::encode_model_term;
use crate::numeric_encoder::EncodedQuad;
use crate::numeric_encoder::EncodedTerm;
use crate::numeric_encoder::quad_wf;
use crate::numeric_encoder::term_wf;
use crate::numeric_encoder::Timestamp;
use crate::strings::term_strings;
use crate::writer::insert_effect;
use crate::writer::remove_effect;

verus! {

/// The timestamp as it is stored: without offset where its offset cannot
/// be written.
pub open spec fn settled_time(t: Timestamp) -> Timestamp {
    if t.timezone_offset == Some(-1i16) {
        Timestamp { value: t.value, timezone_offset: None }
    } else {
        t
    }
}

/// The literal as it is stored.
pub open spec fn settled_literal(l: Literal) -> Literal {
    match l {
        Literal::DateTime(v) => Literal::DateTime(settled_time(v)),
        Literal::Time(v) => Literal::Time(settled_time(v)),
        Literal::Date(v) => Literal::Date(settled_time(v)),
        Literal::GYearMonth(v) => Literal::GYearMonth(settled_time(v)),
        Literal::GYear(v) => Literal::GYear(settled_time(v)),
        Literal::GMonthDay(v) => Literal::GMonthDay(settled_time(v)),
        Literal::GDay(v) => Literal::GDay(settled_time(v)),
        Literal::GMonth(v) => Literal::GMonth(settled_time(v)),
        _ => l,
    }
}

/// The term as it is stored.
pub open spec fn settled_term(t: Term) -> Term
    decreases t,
{
    match t {
        Term::Literal(l) => Term::Literal(settled_literal(l)),
        Term::Triple(triple) => Term::Triple(
            Box::new(
                Triple {
                    subject: settled_term(triple.subject),
                    predicate: settled_term(triple.predicate),
                    object: settled_term(triple.object),
                },
            ),
        ),
        _ => t,
    }
}

/// The quad as it is stored.
pub open spec fn settled_quad(q: Quad) -> Quad {
    Quad {
        subject: settled_term(q.subject),
        predicate: settled_term(q.predicate),
        object: settled_term(q.object),
        graph_name: q.graph_name,
    }
}

/// The two bytes of the offset `-1` are those of an absent offset.
proof fn lemma_unwritable_offset()
    ensures
        i16_bytes(-1i16) == no_offset_bytes(),
{
    assert((-1i16) as u16 == 65535u16) by (bit_vector);
    reveal_with_fuel(be_bytes, 3);
    assert(i16_bytes(-1i16) =~= no_offset_bytes());
}

/// A timestamp is written as the timestamp that is stored for it.
pub proof fn lemma_settled_time(t: Timestamp)
    ensures
        settled_time(t).wf(),
        timestamp_bytes(settled_time(t)) == timestamp_bytes(t),
{
    lemma_unwritable_offset();
}

/// The term that is stored for a term can be written, has the binary form
/// of the term, and has its texts.
pub proof fn lemma_settled_term(t: Term)
    ensures
        term_wf(settled_term(t)),
        term_bytes(encode_model_term(settled_term(t))) == term_bytes(encode_model_term(t)),
        term_strings(settled_term(t)) == term_strings(t),
    decreases t,
{
    reveal(term_bytes);
    match t {
        Term::Literal(l) => {
            match l {
                Literal::DateTime(v) => lemma_settled_time(v),
                Literal::Time(v) => lemma_settled_time(v),
                Literal::Date(v) => lemma_settled_time(v),
                Literal::GYearMonth(v) => lemma_settled_time(v),
                Literal::GYear(v) => lemma_settled_time(v),
                Literal::GMonthDay(v) => lemma_settled_time(v),
                Literal::GDay(v) => lemma_settled_time(v),
                Literal::GMonth(v) => lemma_settled_time(v),
                _ => {},
            }
        },
        Term::Triple(triple) => {
            lemma_settled_term(triple.subject);
            lemma_settled_term(triple.predicate);
            lemma_settled_term(triple.object);
        },
        _ => {},
    }
}

/// Lists of terms with the same binary forms, term by term, have the same
/// binary form.
proof fn lemma_same_bytes(a: Seq<EncodedTerm>, b: Seq<EncodedTerm>)
    requires
        a.len() == b.len(),
        forall|i: int| 0 <= i < a.len() ==> term_bytes(#[trigger] a[i]) == term_bytes(b[i]),
    ensures
        terms_bytes(a) == terms_bytes(b),
    decreases a.len(),
{
    if a.len() > 0 {
        assert forall|i: int| 0 <= i < a.skip(1).len() implies term_bytes(
            #[trigger] a.skip(1)[i],
        ) == term_bytes(b.skip(1)[i]) by {
            assert(a.skip(1)[i] == a[i + 1]);
            assert(b.skip(1)[i] == b[i + 1]);
        }
        lemma_same_bytes(a.skip(1), b.skip(1));
        assert(term_bytes(a[0]) == term_bytes(b[0]));
    }
}

/// Quads whose terms have the same binary forms have the same key in an
/// index.
proof fn lemma_same_keys(a: EncodedQuad, b: EncodedQuad, encoding: QuadEncoding)
    requires
        term_bytes(a.subject) == term_bytes(b.subject),
        term_bytes(a.predicate) == term_bytes(b.predicate),
        term_bytes(a.object) == term_bytes(b.object),
        term_bytes(a.graph_name) == term_bytes(b.graph_name),
    ensures
        quad_key(encoding, a) == quad_key(encoding, b),
{
    let x = encoding.terms(a);
    let y = encoding.terms(b);
    assert(x.len() == y.len());
    assert forall|i: int| 0 <= i < x.len() implies term_bytes(#[trigger] x[i]) == term_bytes(
        y[i],
    ) by {
        if i == 0 {
        } else if i == 1 {
        } else if i == 2 {
        } else {
        }
    }
    lemma_same_bytes(x, y);
}

/// The quad that is stored for a quad can be written, and has the keys of
/// the quad in every index.
pub proof fn lemma_settled_quad(q: Quad)
    ensures
        quad_wf(settled_quad(q)),
        encode_model_quad(settled_quad(q)).graph_name == encode_model_quad(q).graph_name,
        forall|encoding: QuadEncoding|
            quad_key(encoding, encode_model_quad(settled_quad(q))) == #[trigger] quad_key(
                encoding,
                encode_model_quad(q),
            ),
{
    lemma_settled_term(q.subject);
    lemma_settled_term(q.predicate);
    lemma_settled_term(q.object);
    let e = encode_model_quad(q);
    let s = encode_model_quad(settled_quad(q));
    assert forall|encoding: QuadEncoding|
        quad_key(encoding, s) == #[trigger] quad_key(encoding, e) by {
        lemma_same_keys(s, e, encoding);
    }
}

/// Inserting a quad is inserting the quad that is stored for it, and so
/// is removing it.
pub proof fn lemma_settled_effects(v: DbView, q: Quad)
    ensures
        quad_wf(settled_quad(q)),
        insert_effect(v, q) == insert_effect(v, settled_quad(q)),
        remove_effect(v, encode_model_quad(q)) == remove_effect(
            v,
            encode_model_quad(settled_quad(q)),
        ),
{
    lemma_settled_quad(q);
    lemma_settled_term(q.subject);
    lemma_settled_term(q.predicate);
    lemma_settled_term(q.object);
    let e = encode_model_quad(q);
    let s = encode_model_quad(settled_quad(q));
    assert(quad_key(QuadEncoding::Spog, s) == quad_key(QuadEncoding::Spog, e));
    assert(quad_key(QuadEncoding::Posg, s) == quad_key(QuadEncoding::Posg, e));
    assert(quad_key(QuadEncoding::Ospg, s) == quad_key(QuadEncoding::Ospg, e));
    assert(quad_key(QuadEncoding::Gspo, s) == quad_key(QuadEncoding::Gspo, e));
    assert(quad_key(QuadEncoding::Gpos, s) == quad_key(QuadEncoding::Gpos, e));
    assert(quad_key(QuadEncoding::Gosp, s) == quad_key(QuadEncoding::Gosp, e));
    assert(quad_key(QuadEncoding::Dspo, s) == quad_key(QuadEncoding::Dspo, e));
    assert(quad_key(QuadEncoding::Dpos, s) == quad_key(QuadEncoding::Dpos, e));
    assert(quad_key(QuadEncoding::Dosp, s) == quad_key(QuadEncoding::Dosp, e));
}

} // verus!
