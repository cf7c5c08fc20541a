//! From encoded terms back to terms: the texts are looked up in the string
//! table by their hash.

use vstd::prelude::*;
use vstd::utf8::valid_utf8;
use crate::backend::ColumnFamily;
use crate::endian::u128_bytes;
use crate::error::CorruptionError;
use crate::error::StorageError;
use crate::model::BlankNode;
use crate::model::GraphName;
use crate::model::Literal;
use crate::model::NamedNode;
use crate::model::Quad;
use crate::model::Term;
use crate::model::Triple;
use crate::numeric_encoder::encode_graph_name;
use crate::numeric_encoder::encode_model_quad;
use crate::numeric_encoder::encode_model_term;
use crate::numeric_encoder::hash_of_text;
use crate::numeric_encoder::is_small_text;
use crate::numeric_encoder::small_text;
use crate::numeric_encoder::EncodedQuad;
use crate::numeric_encoder::EncodedTerm;
use crate::numeric_encoder::StrHash;
use crate::small_string::small_string_image;
use crate::small_string::SmallString;
use crate::storage::StorageReader;
use crate::strings::Rows;
use crate::text::string_from_utf8;

verus! {

/// Whether the string table holds under a hash a text that has this hash
/// and is too long to be held inline.
pub open spec fn long_text_stored(table: Rows, h: StrHash) -> bool {
    let k = u128_bytes(h.hash);
    &&& table.contains_key(k)
    &&& valid_utf8(table[k])
    &&& table[k].len() > 15
    &&& crate::numeric_encoder::sip_hash_of(table[k]) == h.hash
}

/// Whether the string table holds under a hash a text that has this hash.
pub open spec fn text_stored(table: Rows, h: StrHash) -> bool {
    let k = u128_bytes(h.hash);
    &&& table.contains_key(k)
    &&& valid_utf8(table[k])
    &&& crate::numeric_encoder::sip_hash_of(table[k]) == h.hash
}

/// Whether a small string is the inline form of its text: well formed and
/// padded with zeros.
pub open spec fn canonical_small(s: SmallString) -> bool {
    s.wf() && s.bytes() == small_string_image(s.text())
}

/// Whether an encoded term can be decoded: every hash of it stands in the
/// string table for a text with that hash, long where the term has the
/// form for long texts, and every inline string is the inline form of its
/// text.
pub open spec fn decodable(table: Rows, t: EncodedTerm) -> bool
    decreases t,
{
    match t {
        EncodedTerm::DefaultGraph => false,
        EncodedTerm::NamedNode { iri_id } => text_stored(table, iri_id),
        EncodedTerm::NumericalBlankNode { id } => true,
        EncodedTerm::SmallBlankNode(s) => canonical_small(s),
        EncodedTerm::BigBlankNode { id_id } => long_text_stored(table, id_id),
        EncodedTerm::SmallStringLiteral(s) => canonical_small(s),
        EncodedTerm::BigStringLiteral { value_id } => long_text_stored(table, value_id),
        EncodedTerm::SmallSmallLangStringLiteral { value, language } => canonical_small(value)
            && canonical_small(language),
        EncodedTerm::SmallBigLangStringLiteral { value, language_id } => canonical_small(value)
            && long_text_stored(table, language_id),
        EncodedTerm::BigSmallLangStringLiteral { value_id, language } => long_text_stored(
            table,
            value_id,
        ) && canonical_small(language),
        EncodedTerm::BigBigLangStringLiteral { value_id, language_id } => long_text_stored(
            table,
            value_id,
        ) && long_text_stored(table, language_id),
        EncodedTerm::SmallTypedLiteral { value, datatype_id } => canonical_small(value)
            && text_stored(table, datatype_id),
        EncodedTerm::BigTypedLiteral { value_id, datatype_id } => long_text_stored(table, value_id)
            && text_stored(table, datatype_id),
        EncodedTerm::Triple(triple) => decodable(table, triple.subject) && decodable(
            table,
            triple.predicate,
        ) && decodable(table, triple.object),
        _ => true,
    }
}

/// Whether an encoded term can be decoded as the name of a graph: it is
/// the default graph, or a named or blank node that can be decoded.
pub open spec fn graph_decodable(table: Rows, t: EncodedTerm) -> bool {
    t is DefaultGraph || ((t is NamedNode || t is NumericalBlankNode || t is SmallBlankNode || t
        is BigBlankNode) && decodable(table, t))
}

/// Whether an encoded quad can be decoded.
pub open spec fn quad_decodable(table: Rows, q: EncodedQuad) -> bool {
    &&& decodable(table, q.subject)
    &&& decodable(table, q.predicate)
    &&& decodable(table, q.object)
    &&& graph_decodable(table, q.graph_name)
}

/// The first of two faults.
pub open spec fn first_fault(a: Option<CorruptionError>, b: Option<CorruptionError>) -> Option<
    CorruptionError,
> {
    if a is Some {
        a
    } else {
        b
    }
}

/// Why the text of a hash cannot be given: the string table does not hold
/// under the hash a text with this hash, too long to be held inline where
/// `long` is set.
pub open spec fn stored_fault(table: Rows, h: StrHash, long: bool) -> Option<CorruptionError> {
    if long && long_text_stored(table, h) || !long && text_stored(table, h) {
        None
    } else {
        Some(CorruptionError::MissingString)
    }
}

/// Why the text of an inline string cannot be given: the string is not
/// the inline form of a text.
pub open spec fn inline_fault(s: SmallString) -> Option<CorruptionError> {
    if canonical_small(s) {
        None
    } else {
        Some(CorruptionError::BadSmallString)
    }
}

/// Why an encoded term cannot be decoded: the fault of the first of its
/// parts that has one. The default graph is no term, and counts as a
/// missing text.
pub open spec fn term_fault(table: Rows, t: EncodedTerm) -> Option<CorruptionError>
    decreases t,
{
    match t {
        EncodedTerm::DefaultGraph => Some(CorruptionError::MissingString),
        EncodedTerm::NamedNode { iri_id } => stored_fault(table, iri_id, false),
        EncodedTerm::SmallBlankNode(s) => inline_fault(s),
        EncodedTerm::BigBlankNode { id_id } => stored_fault(table, id_id, true),
        EncodedTerm::SmallStringLiteral(s) => inline_fault(s),
        EncodedTerm::BigStringLiteral { value_id } => stored_fault(table, value_id, true),
        EncodedTerm::SmallSmallLangStringLiteral { value, language } => first_fault(
            inline_fault(value),
            inline_fault(language),
        ),
        EncodedTerm::SmallBigLangStringLiteral { value, language_id } => first_fault(
            inline_fault(value),
            stored_fault(table, language_id, true),
        ),
        EncodedTerm::BigSmallLangStringLiteral { value_id, language } => first_fault(
            stored_fault(table, value_id, true),
            inline_fault(language),
        ),
        EncodedTerm::BigBigLangStringLiteral { value_id, language_id } => first_fault(
            stored_fault(table, value_id, true),
            stored_fault(table, language_id, true),
        ),
        EncodedTerm::SmallTypedLiteral { value, datatype_id } => first_fault(
            inline_fault(value),
            stored_fault(table, datatype_id, false),
        ),
        EncodedTerm::BigTypedLiteral { value_id, datatype_id } => first_fault(
            stored_fault(table, value_id, true),
            stored_fault(table, datatype_id, false),
        ),
        EncodedTerm::Triple(triple) => first_fault(
            term_fault(table, triple.subject),
            first_fault(term_fault(table, triple.predicate), term_fault(table, triple.object)),
        ),
        _ => None,
    }
}

/// Why an encoded term cannot be decoded as the name of a graph. A term
/// that is neither the default graph nor a named or blank node counts as
/// a missing text.
pub open spec fn graph_fault(table: Rows, t: EncodedTerm) -> Option<CorruptionError> {
    if t is DefaultGraph {
        None
    } else if t is NamedNode || t is NumericalBlankNode || t is SmallBlankNode || t
        is BigBlankNode {
        term_fault(table, t)
    } else {
        Some(CorruptionError::MissingString)
    }
}

/// Why an encoded quad cannot be decoded: the fault of the first of
/// subject, predicate, object and graph name that has one.
pub open spec fn quad_fault(table: Rows, q: EncodedQuad) -> Option<CorruptionError> {
    first_fault(
        term_fault(table, q.subject),
        first_fault(
            term_fault(table, q.predicate),
            first_fault(term_fault(table, q.object), graph_fault(table, q.graph_name)),
        ),
    )
}

/// An encoded term can be decoded exactly if it has no fault.
pub proof fn lemma_term_fault(table: Rows, t: EncodedTerm)
    ensures
        decodable(table, t) == (term_fault(table, t) is None),
    decreases t,
{
    match t {
        EncodedTerm::Triple(triple) => {
            lemma_term_fault(table, triple.subject);
            lemma_term_fault(table, triple.predicate);
            lemma_term_fault(table, triple.object);
        },
        _ => {},
    }
}

/// An encoded quad can be decoded exactly if it has no fault.
pub proof fn lemma_quad_fault(table: Rows, q: EncodedQuad)
    ensures
        quad_decodable(table, q) == (quad_fault(table, q) is None),
        graph_decodable(table, q.graph_name) == (graph_fault(table, q.graph_name) is None),
{
    lemma_term_fault(table, q.subject);
    lemma_term_fault(table, q.predicate);
    lemma_term_fault(table, q.object);
    lemma_term_fault(table, q.graph_name);
}

/// Whether a result fails with the corruption that a fault names, or
/// succeeds where there is no fault.
pub open spec fn fails_with<T>(r: Result<T, StorageError>, fault: Option<CorruptionError>) -> bool {
    match r {
        Ok(_) => fault is None,
        Err(e) => fault == Some(e->Corruption_0) && e is Corruption,
    }
}

/// The error that says that the string table does not have what a term
/// needs: the corruption of a missing text.
fn undecodable() -> (e: StorageError)
    ensures
        e == StorageError::Corruption(CorruptionError::MissingString),
{
    StorageError::Corruption(CorruptionError::MissingString)
}

impl StorageReader {
    /// The text that the string table holds under a hash, if the text has
    /// this hash and, where `long` is set, is too long to be held inline.
    fn stored_text(&self, h: &StrHash, long: bool) -> (r: Result<String, StorageError>)
        requires
            self.wf(),
        ensures
            r is Ok == (if long {
                long_text_stored(self@[ColumnFamily::Id2Str], *h)
            } else {
                text_stored(self@[ColumnFamily::Id2Str], *h)
            }),
            r matches Ok(text) ==> hash_of_text(text@) == *h && (long ==> !is_small_text(text@)),
            fails_with(r, stored_fault(self@[ColumnFamily::Id2Str], *h, long)),
    {
        match self.get_str(h) {
            Ok(Some(text)) => {
                let found = StrHash::new(text.as_str());
                if found.hash != h.hash {
                    return Err(undecodable());
                }
                if long && text.as_str().as_bytes().len() <= 15 {
                    return Err(undecodable());
                }
                Ok(text)
            },
            Ok(None) => Err(undecodable()),
            Err(e) => Err(undecodable()),
        }
    }

    /// The text of an inline string, if the string is the inline form of
    /// its text.
    fn inline_text(s: &SmallString) -> (r: Result<String, StorageError>)
        ensures
            r is Ok == canonical_small(*s),
            r matches Ok(text) ==> is_small_text(text@) && small_text(text@) == *s,
            fails_with(r, inline_fault(*s)),
    {
        let bytes = s.to_be_bytes();
        let n: usize = bytes[15] as usize;
        if n > 15 {
            return Err(StorageError::Corruption(CorruptionError::BadSmallString));
        }
        let mut i: usize = n;
        while i < 15
            invariant
                n <= i <= 15,
                bytes@ == s.bytes(),
                n == bytes@[15],
                forall|j: int| n <= j < i ==> bytes@[j] == 0,
            decreases 15 - i,
        {
            if bytes[i] != 0 {
                proof {
                    s.lemma_bytes_len();
                    assert(s.text().len() == n);
                    assert(small_string_image(s.text())[i as int] == 0);
                }
                return Err(StorageError::Corruption(CorruptionError::BadSmallString));
            }
            i = i + 1;
        }
        let text = vstd::slice::slice_subrange(bytes.as_slice(), 0, n);
        match string_from_utf8(crate::backend::copy_bytes(text)) {
            Some(text) => {
                proof {
                    s.lemma_bytes_len();
                    assert(s.text().len() == n);
                    assert(s.bytes() =~= small_string_image(s.text()));
                    crate::small_string::lemma_small_string_of(*s);
                }
                Ok(text)
            },
            None => Err(StorageError::Corruption(CorruptionError::BadSmallString)),
        }
    }

    /// The term that an encoded term stands for. The term that is given
    /// has the encoded term as its encoded form.
    pub fn decode_term(&self, encoded: &EncodedTerm) -> (r: Result<Term, StorageError>)
        requires
            self.wf(),
        ensures
            r is Ok == decodable(self@[ColumnFamily::Id2Str], *encoded),
            r matches Ok(term) ==> encode_model_term(term) == *encoded,
            fails_with(r, term_fault(self@[ColumnFamily::Id2Str], *encoded)),
        decreases *encoded,
    {
        match encoded {
            EncodedTerm::DefaultGraph => Err(undecodable()),
            EncodedTerm::NamedNode { iri_id } => Ok(
                Term::NamedNode(NamedNode { iri: self.stored_text(iri_id, false)? }),
            ),
            EncodedTerm::NumericalBlankNode { id } => Ok(
                Term::BlankNode(BlankNode::Anonymous { number: *id }),
            ),
            EncodedTerm::SmallBlankNode(s) => Ok(
                Term::BlankNode(BlankNode::Named { id: StorageReader::inline_text(s)? }),
            ),
            EncodedTerm::BigBlankNode { id_id } => Ok(
                Term::BlankNode(BlankNode::Named { id: self.stored_text(id_id, true)? }),
            ),
            EncodedTerm::SmallStringLiteral(s) => Ok(
                Term::Literal(Literal::Simple { value: StorageReader::inline_text(s)? }),
            ),
            EncodedTerm::BigStringLiteral { value_id } => Ok(
                Term::Literal(Literal::Simple { value: self.stored_text(value_id, true)? }),
            ),
            EncodedTerm::SmallSmallLangStringLiteral { value, language } => {
                let value = StorageReader::inline_text(value)?;
                let language = StorageReader::inline_text(language)?;
                Ok(Term::Literal(Literal::LanguageTagged { value, language }))
            },
            EncodedTerm::SmallBigLangStringLiteral { value, language_id } => {
                let value = StorageReader::inline_text(value)?;
                let language = self.stored_text(language_id, true)?;
                Ok(Term::Literal(Literal::LanguageTagged { value, language }))
            },
            EncodedTerm::BigSmallLangStringLiteral { value_id, language } => {
                let value = self.stored_text(value_id, true)?;
                let language = StorageReader::inline_text(language)?;
                Ok(Term::Literal(Literal::LanguageTagged { value, language }))
            },
            EncodedTerm::BigBigLangStringLiteral { value_id, language_id } => {
                let value = self.stored_text(value_id, true)?;
                let language = self.stored_text(language_id, true)?;
                Ok(Term::Literal(Literal::LanguageTagged { value, language }))
            },
            EncodedTerm::SmallTypedLiteral { value, datatype_id } => {
                let value = StorageReader::inline_text(value)?;
                let datatype = NamedNode { iri: self.stored_text(datatype_id, false)? };
                Ok(Term::Literal(Literal::Typed { value, datatype }))
            },
            EncodedTerm::BigTypedLiteral { value_id, datatype_id } => {
                let value = self.stored_text(value_id, true)?;
                let datatype = NamedNode { iri: self.stored_text(datatype_id, false)? };
                Ok(Term::Literal(Literal::Typed { value, datatype }))
            },
            EncodedTerm::BooleanLiteral(v) => Ok(Term::Literal(Literal::Boolean(*v))),
            EncodedTerm::FloatLiteral(v) => Ok(Term::Literal(Literal::Float(*v))),
            EncodedTerm::DoubleLiteral(v) => Ok(Term::Literal(Literal::Double(*v))),
            EncodedTerm::IntegerLiteral(v) => Ok(Term::Literal(Literal::Integer(*v))),
            EncodedTerm::DecimalLiteral(v) => Ok(Term::Literal(Literal::Decimal(*v))),
            EncodedTerm::DateTimeLiteral(v) => Ok(Term::Literal(Literal::DateTime(*v))),
            EncodedTerm::TimeLiteral(v) => Ok(Term::Literal(Literal::Time(*v))),
            EncodedTerm::DateLiteral(v) => Ok(Term::Literal(Literal::Date(*v))),
            EncodedTerm::GYearMonthLiteral(v) => Ok(Term::Literal(Literal::GYearMonth(*v))),
            EncodedTerm::GYearLiteral(v) => Ok(Term::Literal(Literal::GYear(*v))),
            EncodedTerm::GMonthDayLiteral(v) => Ok(Term::Literal(Literal::GMonthDay(*v))),
            EncodedTerm::GDayLiteral(v) => Ok(Term::Literal(Literal::GDay(*v))),
            EncodedTerm::GMonthLiteral(v) => Ok(Term::Literal(Literal::GMonth(*v))),
            EncodedTerm::DurationLiteral(v) => Ok(Term::Literal(Literal::Duration(*v))),
            EncodedTerm::YearMonthDurationLiteral(v) => Ok(
                Term::Literal(Literal::YearMonthDuration(*v)),
            ),
            EncodedTerm::DayTimeDurationLiteral(v) => Ok(
                Term::Literal(Literal::DayTimeDuration(*v)),
            ),
            EncodedTerm::Triple(triple) => {
                let subject = self.decode_term(&triple.subject)?;
                let predicate = self.decode_term(&triple.predicate)?;
                let object = self.decode_term(&triple.object)?;
                Ok(Term::Triple(Box::new(Triple { subject, predicate, object })))
            },
        }
    }

    /// The name of a graph that an encoded term stands for.
    pub fn decode_graph_name(&self, encoded: &EncodedTerm) -> (r: Result<GraphName, StorageError>)
        requires
            self.wf(),
        ensures
            r is Ok == graph_decodable(self@[ColumnFamily::Id2Str], *encoded),
            r matches Ok(g) ==> encode_graph_name(g) == *encoded,
            fails_with(r, graph_fault(self@[ColumnFamily::Id2Str], *encoded)),
    {
        match encoded {
            EncodedTerm::DefaultGraph => Ok(GraphName::DefaultGraph),
            EncodedTerm::NamedNode { iri_id } => Ok(
                GraphName::NamedNode(NamedNode { iri: self.stored_text(iri_id, false)? }),
            ),
            EncodedTerm::NumericalBlankNode { id } => Ok(
                GraphName::BlankNode(BlankNode::Anonymous { number: *id }),
            ),
            EncodedTerm::SmallBlankNode(s) => Ok(
                GraphName::BlankNode(BlankNode::Named { id: StorageReader::inline_text(s)? }),
            ),
            EncodedTerm::BigBlankNode { id_id } => Ok(
                GraphName::BlankNode(BlankNode::Named { id: self.stored_text(id_id, true)? }),
            ),
            _ => Err(undecodable()),
        }
    }

    /// The quad that an encoded quad stands for. The quad that is given
    /// has the encoded quad as its encoded form.
    pub fn decode_quad(&self, encoded: &EncodedQuad) -> (r: Result<Quad, StorageError>)
        requires
            self.wf(),
        ensures
            r is Ok == quad_decodable(self@[ColumnFamily::Id2Str], *encoded),
            r matches Ok(quad) ==> encode_model_quad(quad) == *encoded,
            fails_with(r, quad_fault(self@[ColumnFamily::Id2Str], *encoded)),
    {
        let subject = self.decode_term(&encoded.subject)?;
        let predicate = self.decode_term(&encoded.predicate)?;
        let object = self.decode_term(&encoded.object)?;
        let graph_name = self.decode_graph_name(&encoded.graph_name)?;
        Ok(Quad { subject, predicate, object, graph_name })
    }
}

} // verus!
