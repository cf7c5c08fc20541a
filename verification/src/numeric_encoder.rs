//! Encoded terms: RDF terms in which every long string is replaced by its
//! 128-bit hash, so that each term has a short binary form of known width.

use vstd::prelude::*;
use vstd::string::StringSliceAdditionalSpecFns;
use vstd::utf8::encode_utf8;
use crate::model::BlankNode;
use crate::model::GraphName;
use crate::model::Literal;
use crate::model::NamedNode;
use crate::model::NamedOrBlankNode;
use crate::model::Quad;
use crate::model::Term;
use crate::small_string::lemma_small_string_image;
use crate::small_string::lemma_small_string_of;
use crate::small_string::small_string_image;
use crate::small_string::small_string_of;
use crate::small_string::SmallString;

verus! {

/// The 128-bit SipHash-2-4 of a byte string under the all-zero key.
pub uninterp spec fn sip_hash_of(bytes: Seq<u8>) -> u128;

/// Hashes `bytes` with `siphasher::sip128::SipHasher24::new().hash(..)` and
/// joins the two halves as `u128::from` does for a `Hash128`. The hasher is
/// made with the two zero keys and reads nothing but `bytes`, so the result
/// is a function of the bytes alone.
#[verifier::external_body]
fn sip_hash_128(bytes: &[u8]) -> (h: u128)
    ensures
        h == sip_hash_of(bytes@),
{
    u128::from(siphasher::sip128::SipHasher24::new().hash(bytes))
}

/// The hash that stands for a string in keys and in the string table.
#[derive(Clone, Copy, Debug, PartialEq, Eq, Hash, Structural)]
pub struct StrHash {
    pub hash: u128,
}

impl StrHash {
    /// The hash of `value`.
    pub fn new(value: &str) -> (h: StrHash)
        ensures
            h.hash == sip_hash_of(value.spec_bytes()),
    {
        StrHash { hash: sip_hash_128(value.as_bytes()) }
    }

    /// The hash of a byte string.
    pub fn of_bytes(value: &[u8]) -> (h: StrHash)
        ensures
            h.hash == sip_hash_of(value@),
    {
        StrHash { hash: sip_hash_128(value) }
    }
}

/// A point on the time line in seconds, as a decimal scaled by `10^18`,
/// with an optional offset from UTC in minutes.
#[derive(Clone, Copy, Debug, PartialEq, Eq, Hash, Structural)]
pub struct Timestamp {
    pub value: i128,
    pub timezone_offset: Option<i16>,
}

impl Timestamp {
    /// The offset `-1` is the one that the binary form cannot tell from an
    /// absent offset.
    pub open spec fn wf(self) -> bool {
        self.timezone_offset != Some(-1i16)
    }
}

/// A duration: a number of months and a decimal number of seconds.
#[derive(Clone, Copy, Debug, PartialEq, Eq, Hash, Structural)]
pub struct Duration {
    pub months: i64,
    pub seconds: i128,
}

/// An encoded triple, the content of a quoted-triple term.
#[derive(Debug, PartialEq, Eq, Hash)]
pub struct EncodedTriple {
    pub subject: EncodedTerm,
    pub predicate: EncodedTerm,
    pub object: EncodedTerm,
}

/// An encoded term. Floating-point literals hold their IEEE 754 bits and
/// decimals their scaled integer.
#[derive(Debug, PartialEq, Eq, Hash)]
pub enum EncodedTerm {
    DefaultGraph,
    NamedNode { iri_id: StrHash },
    NumericalBlankNode { id: u128 },
    SmallBlankNode(SmallString),
    BigBlankNode { id_id: StrHash },
    SmallStringLiteral(SmallString),
    BigStringLiteral { value_id: StrHash },
    SmallSmallLangStringLiteral { value: SmallString, language: SmallString },
    SmallBigLangStringLiteral { value: SmallString, language_id: StrHash },
    BigSmallLangStringLiteral { value_id: StrHash, language: SmallString },
    BigBigLangStringLiteral { value_id: StrHash, language_id: StrHash },
    SmallTypedLiteral { value: SmallString, datatype_id: StrHash },
    BigTypedLiteral { value_id: StrHash, datatype_id: StrHash },
    BooleanLiteral(bool),
    FloatLiteral(u32),
    DoubleLiteral(u64),
    IntegerLiteral(i64),
    DecimalLiteral(i128),
    DateTimeLiteral(Timestamp),
    TimeLiteral(Timestamp),
    DateLiteral(Timestamp),
    GYearMonthLiteral(Timestamp),
    GYearLiteral(Timestamp),
    GMonthDayLiteral(Timestamp),
    GDayLiteral(Timestamp),
    GMonthLiteral(Timestamp),
    DurationLiteral(Duration),
    YearMonthDurationLiteral(i64),
    DayTimeDurationLiteral(i128),
    Triple(Box<EncodedTriple>),
}

impl Clone for EncodedTerm {
    fn clone(&self) -> (r: Self)
        ensures
            r == *self,
        decreases self,
    {
        match self {
            EncodedTerm::DefaultGraph => EncodedTerm::DefaultGraph,
            EncodedTerm::NamedNode { iri_id } => EncodedTerm::NamedNode { iri_id: *iri_id },
            EncodedTerm::NumericalBlankNode { id } => EncodedTerm::NumericalBlankNode { id: *id },
            EncodedTerm::SmallBlankNode(s) => EncodedTerm::SmallBlankNode(*s),
            EncodedTerm::BigBlankNode { id_id } => EncodedTerm::BigBlankNode { id_id: *id_id },
            EncodedTerm::SmallStringLiteral(s) => EncodedTerm::SmallStringLiteral(*s),
            EncodedTerm::BigStringLiteral { value_id } => EncodedTerm::BigStringLiteral {
                value_id: *value_id,
            },
            EncodedTerm::SmallSmallLangStringLiteral { value, language } => {
                EncodedTerm::SmallSmallLangStringLiteral { value: *value, language: *language }
            },
            EncodedTerm::SmallBigLangStringLiteral { value, language_id } => {
                EncodedTerm::SmallBigLangStringLiteral { value: *value, language_id: *language_id }
            },
            EncodedTerm::BigSmallLangStringLiteral { value_id, language } => {
                EncodedTerm::BigSmallLangStringLiteral { value_id: *value_id, language: *language }
            },
            EncodedTerm::BigBigLangStringLiteral { value_id, language_id } => {
                EncodedTerm::BigBigLangStringLiteral {
                    value_id: *value_id,
                    language_id: *language_id,
                }
            },
            EncodedTerm::SmallTypedLiteral { value, datatype_id } => {
                EncodedTerm::SmallTypedLiteral { value: *value, datatype_id: *datatype_id }
            },
            EncodedTerm::BigTypedLiteral { value_id, datatype_id } => {
                EncodedTerm::BigTypedLiteral { value_id: *value_id, datatype_id: *datatype_id }
            },
            EncodedTerm::BooleanLiteral(b) => EncodedTerm::BooleanLiteral(*b),
            EncodedTerm::FloatLiteral(v) => EncodedTerm::FloatLiteral(*v),
            EncodedTerm::DoubleLiteral(v) => EncodedTerm::DoubleLiteral(*v),
            EncodedTerm::IntegerLiteral(v) => EncodedTerm::IntegerLiteral(*v),
            EncodedTerm::DecimalLiteral(v) => EncodedTerm::DecimalLiteral(*v),
            EncodedTerm::DateTimeLiteral(v) => EncodedTerm::DateTimeLiteral(*v),
            EncodedTerm::TimeLiteral(v) => EncodedTerm::TimeLiteral(*v),
            EncodedTerm::DateLiteral(v) => EncodedTerm::DateLiteral(*v),
            EncodedTerm::GYearMonthLiteral(v) => EncodedTerm::GYearMonthLiteral(*v),
            EncodedTerm::GYearLiteral(v) => EncodedTerm::GYearLiteral(*v),
            EncodedTerm::GMonthDayLiteral(v) => EncodedTerm::GMonthDayLiteral(*v),
            EncodedTerm::GDayLiteral(v) => EncodedTerm::GDayLiteral(*v),
            EncodedTerm::GMonthLiteral(v) => EncodedTerm::GMonthLiteral(*v),
            EncodedTerm::DurationLiteral(v) => EncodedTerm::DurationLiteral(*v),
            EncodedTerm::YearMonthDurationLiteral(v) => EncodedTerm::YearMonthDurationLiteral(*v),
            EncodedTerm::DayTimeDurationLiteral(v) => EncodedTerm::DayTimeDurationLiteral(*v),
            EncodedTerm::Triple(t) => EncodedTerm::Triple(
                Box::new(
                    EncodedTriple {
                        subject: t.subject.clone(),
                        predicate: t.predicate.clone(),
                        object: t.object.clone(),
                    },
                ),
            ),
        }
    }
}

impl Clone for EncodedTriple {
    fn clone(&self) -> (r: Self)
        ensures
            r == *self,
    {
        EncodedTriple {
            subject: self.subject.clone(),
            predicate: self.predicate.clone(),
            object: self.object.clone(),
        }
    }
}

impl Clone for EncodedQuad {
    fn clone(&self) -> (r: Self)
        ensures
            r == *self,
    {
        EncodedQuad {
            subject: self.subject.clone(),
            predicate: self.predicate.clone(),
            object: self.object.clone(),
            graph_name: self.graph_name.clone(),
        }
    }
}

impl EncodedTerm {
    /// Whether the term has a binary form that reads back as the same
    /// term: it is not the default graph, its small strings are valid, its
    /// time-zone offsets are representable, and the same holds of the
    /// three terms of a quoted triple.
    pub open spec fn wf(self) -> bool
        decreases self,
    {
        match self {
            EncodedTerm::DefaultGraph => false,
            EncodedTerm::SmallBlankNode(s) => s.wf(),
            EncodedTerm::SmallStringLiteral(s) => s.wf(),
            EncodedTerm::SmallSmallLangStringLiteral { value, language } => value.wf()
                && language.wf(),
            EncodedTerm::SmallBigLangStringLiteral { value, language_id } => value.wf(),
            EncodedTerm::BigSmallLangStringLiteral { value_id, language } => language.wf(),
            EncodedTerm::SmallTypedLiteral { value, datatype_id } => value.wf(),
            EncodedTerm::DateTimeLiteral(t) => t.wf(),
            EncodedTerm::TimeLiteral(t) => t.wf(),
            EncodedTerm::DateLiteral(t) => t.wf(),
            EncodedTerm::GYearMonthLiteral(t) => t.wf(),
            EncodedTerm::GYearLiteral(t) => t.wf(),
            EncodedTerm::GMonthDayLiteral(t) => t.wf(),
            EncodedTerm::GDayLiteral(t) => t.wf(),
            EncodedTerm::GMonthLiteral(t) => t.wf(),
            EncodedTerm::Triple(t) => t.subject.wf() && t.predicate.wf() && t.object.wf(),
            _ => true,
        }
    }

    /// Whether the term is the default graph.
    pub fn is_default_graph(&self) -> (b: bool)
        ensures
            b == (*self is DefaultGraph),
    {
        match self {
            EncodedTerm::DefaultGraph => true,
            _ => false,
        }
    }

    /// Whether the term is a named node.
    pub fn is_named_node(&self) -> (b: bool)
        ensures
            b == (*self is NamedNode),
    {
        match self {
            EncodedTerm::NamedNode { .. } => true,
            _ => false,
        }
    }

    /// Whether the term is a blank node.
    pub fn is_blank_node(&self) -> (b: bool)
        ensures
            b == (*self is NumericalBlankNode || *self is SmallBlankNode || *self
                is BigBlankNode),
    {
        match self {
            EncodedTerm::NumericalBlankNode { .. } => true,
            EncodedTerm::SmallBlankNode(_) => true,
            EncodedTerm::BigBlankNode { .. } => true,
            _ => false,
        }
    }

    /// Whether the term is a quoted triple.
    pub fn is_triple(&self) -> (b: bool)
        ensures
            b == (*self is Triple),
    {
        match self {
            EncodedTerm::Triple(_) => true,
            _ => false,
        }
    }
}

/// An encoded quad. A quad of the default graph has `DefaultGraph` as its
/// graph name.
#[derive(Debug, PartialEq, Eq, Hash)]
pub struct EncodedQuad {
    pub subject: EncodedTerm,
    pub predicate: EncodedTerm,
    pub object: EncodedTerm,
    pub graph_name: EncodedTerm,
}

impl EncodedQuad {
    /// The encoded quad of three encoded terms and an encoded graph name.
    pub fn new(
        subject: EncodedTerm,
        predicate: EncodedTerm,
        object: EncodedTerm,
        graph_name: EncodedTerm,
    ) -> (q: EncodedQuad)
        ensures
            q == (EncodedQuad { subject, predicate, object, graph_name }),
    {
        EncodedQuad { subject, predicate, object, graph_name }
    }

    /// Whether the three terms of the quad are well formed and the graph
    /// name is well formed or the default graph.
    pub open spec fn wf(self) -> bool {
        &&& self.subject.wf()
        &&& self.predicate.wf()
        &&& self.object.wf()
        &&& (self.graph_name is DefaultGraph || self.graph_name.wf())
    }
}

/// The hash that stands for a text.
pub open spec fn hash_of_text(text: Seq<char>) -> StrHash {
    StrHash { hash: sip_hash_of(encode_utf8(text)) }
}

/// Whether a text is short enough to be held inline.
pub open spec fn is_small_text(text: Seq<char>) -> bool {
    encode_utf8(text).len() <= 15
}

/// The small string that holds a short text.
pub open spec fn small_text(text: Seq<char>) -> SmallString {
    small_string_of(small_string_image(encode_utf8(text)))
}

/// The encoded form of a named node.
pub open spec fn encode_named_node(n: NamedNode) -> EncodedTerm {
    EncodedTerm::NamedNode { iri_id: hash_of_text(n.iri@) }
}

/// The encoded form of a blank node.
pub open spec fn encode_blank_node(b: BlankNode) -> EncodedTerm {
    match b {
        BlankNode::Anonymous { number } => EncodedTerm::NumericalBlankNode { id: number },
        BlankNode::Named { id } => if is_small_text(id@) {
            EncodedTerm::SmallBlankNode(small_text(id@))
        } else {
            EncodedTerm::BigBlankNode { id_id: hash_of_text(id@) }
        },
    }
}

/// The encoded form of a literal.
pub open spec fn encode_literal(l: Literal) -> EncodedTerm {
    match l {
        Literal::Simple { value } => if is_small_text(value@) {
            EncodedTerm::SmallStringLiteral(small_text(value@))
        } else {
            EncodedTerm::BigStringLiteral { value_id: hash_of_text(value@) }
        },
        Literal::LanguageTagged { value, language } => if is_small_text(value@) {
            if is_small_text(language@) {
                EncodedTerm::SmallSmallLangStringLiteral {
                    value: small_text(value@),
                    language: small_text(language@),
                }
            } else {
                EncodedTerm::SmallBigLangStringLiteral {
                    value: small_text(value@),
                    language_id: hash_of_text(language@),
                }
            }
        } else {
            if is_small_text(language@) {
                EncodedTerm::BigSmallLangStringLiteral {
                    value_id: hash_of_text(value@),
                    language: small_text(language@),
                }
            } else {
                EncodedTerm::BigBigLangStringLiteral {
                    value_id: hash_of_text(value@),
                    language_id: hash_of_text(language@),
                }
            }
        },
        Literal::Typed { value, datatype } => if is_small_text(value@) {
            EncodedTerm::SmallTypedLiteral {
                value: small_text(value@),
                datatype_id: hash_of_text(datatype.iri@),
            }
        } else {
            EncodedTerm::BigTypedLiteral {
                value_id: hash_of_text(value@),
                datatype_id: hash_of_text(datatype.iri@),
            }
        },
        Literal::Boolean(v) => EncodedTerm::BooleanLiteral(v),
        Literal::Float(v) => EncodedTerm::FloatLiteral(v),
        Literal::Double(v) => EncodedTerm::DoubleLiteral(v),
        Literal::Integer(v) => EncodedTerm::IntegerLiteral(v),
        Literal::Decimal(v) => EncodedTerm::DecimalLiteral(v),
        Literal::DateTime(v) => EncodedTerm::DateTimeLiteral(v),
        Literal::Time(v) => EncodedTerm::TimeLiteral(v),
        Literal::Date(v) => EncodedTerm::DateLiteral(v),
        Literal::GYearMonth(v) => EncodedTerm::GYearMonthLiteral(v),
        Literal::GYear(v) => EncodedTerm::GYearLiteral(v),
        Literal::GMonthDay(v) => EncodedTerm::GMonthDayLiteral(v),
        Literal::GDay(v) => EncodedTerm::GDayLiteral(v),
        Literal::GMonth(v) => EncodedTerm::GMonthLiteral(v),
        Literal::Duration(v) => EncodedTerm::DurationLiteral(v),
        Literal::YearMonthDuration(v) => EncodedTerm::YearMonthDurationLiteral(v),
        Literal::DayTimeDuration(v) => EncodedTerm::DayTimeDurationLiteral(v),
    }
}

/// The encoded form of a term.
pub open spec fn encode_model_term(t: Term) -> EncodedTerm
    decreases t,
{
    match t {
        Term::NamedNode(n) => encode_named_node(n),
        Term::BlankNode(b) => encode_blank_node(b),
        Term::Literal(l) => encode_literal(l),
        Term::Triple(triple) => EncodedTerm::Triple(
            Box::new(
                EncodedTriple {
                    subject: encode_model_term(triple.subject),
                    predicate: encode_model_term(triple.predicate),
                    object: encode_model_term(triple.object),
                },
            ),
        ),
    }
}

/// The encoded form of the name of a graph.
pub open spec fn encode_graph_name(g: GraphName) -> EncodedTerm {
    match g {
        GraphName::NamedNode(n) => encode_named_node(n),
        GraphName::BlankNode(b) => encode_blank_node(b),
        GraphName::DefaultGraph => EncodedTerm::DefaultGraph,
    }
}

/// The encoded form of a named or blank node.
pub open spec fn encode_named_or_blank_node(g: NamedOrBlankNode) -> EncodedTerm {
    match g {
        NamedOrBlankNode::NamedNode(n) => encode_named_node(n),
        NamedOrBlankNode::BlankNode(b) => encode_blank_node(b),
    }
}

/// The encoded form of a quad.
pub open spec fn encode_model_quad(q: Quad) -> EncodedQuad {
    EncodedQuad {
        subject: encode_model_term(q.subject),
        predicate: encode_model_term(q.predicate),
        object: encode_model_term(q.object),
        graph_name: encode_graph_name(q.graph_name),
    }
}

/// Whether the timestamps of a literal can be written in binary form.
pub open spec fn literal_wf(l: Literal) -> bool {
    match l {
        Literal::DateTime(v) => v.wf(),
        Literal::Time(v) => v.wf(),
        Literal::Date(v) => v.wf(),
        Literal::GYearMonth(v) => v.wf(),
        Literal::GYear(v) => v.wf(),
        Literal::GMonthDay(v) => v.wf(),
        Literal::GDay(v) => v.wf(),
        Literal::GMonth(v) => v.wf(),
        _ => true,
    }
}

/// Whether the timestamps of a term can be written in binary form.
pub open spec fn term_wf(t: Term) -> bool
    decreases t,
{
    match t {
        Term::Literal(l) => literal_wf(l),
        Term::Triple(triple) => term_wf(triple.subject) && term_wf(triple.predicate) && term_wf(
            triple.object,
        ),
        _ => true,
    }
}

/// Whether the timestamps of a quad can be written in binary form.
pub open spec fn quad_wf(q: Quad) -> bool {
    term_wf(q.subject) && term_wf(q.predicate) && term_wf(q.object)
}

proof fn lemma_small_text_wf(text: Seq<char>)
    requires
        is_small_text(text),
    ensures
        small_text(text).wf(),
{
    vstd::utf8::encode_utf8_valid_utf8(text);
    lemma_small_string_image(encode_utf8(text));
}

/// The encoded form of a blank node is well formed.
pub proof fn lemma_encode_blank_node_wf(b: BlankNode)
    ensures
        encode_blank_node(b).wf(),
{
    match b {
        BlankNode::Named { id } => {
            if is_small_text(id@) {
                lemma_small_text_wf(id@);
            }
        },
        _ => {},
    }
}

/// The encoded form of a literal whose timestamps are representable is well
/// formed.
pub proof fn lemma_encode_literal_wf(l: Literal)
    requires
        literal_wf(l),
    ensures
        encode_literal(l).wf(),
{
    match l {
        Literal::Simple { value } => {
            if is_small_text(value@) {
                lemma_small_text_wf(value@);
            }
        },
        Literal::LanguageTagged { value, language } => {
            if is_small_text(value@) {
                lemma_small_text_wf(value@);
            }
            if is_small_text(language@) {
                lemma_small_text_wf(language@);
            }
        },
        Literal::Typed { value, datatype } => {
            if is_small_text(value@) {
                lemma_small_text_wf(value@);
            }
        },
        _ => {},
    }
}

/// The encoded form of a term whose timestamps are representable is well
/// formed.
pub proof fn lemma_encode_term_wf(t: Term)
    requires
        term_wf(t),
    ensures
        encode_model_term(t).wf(),
    decreases t,
{
    match t {
        Term::NamedNode(n) => {},
        Term::BlankNode(b) => {
            lemma_encode_blank_node_wf(b);
        },
        Term::Literal(l) => {
            lemma_encode_literal_wf(l);
        },
        Term::Triple(triple) => {
            lemma_encode_term_wf(triple.subject);
            lemma_encode_term_wf(triple.predicate);
            lemma_encode_term_wf(triple.object);
        },
    }
}

/// The encoded form of a quad whose timestamps are representable is well
/// formed.
pub proof fn lemma_encode_quad_wf(q: Quad)
    requires
        quad_wf(q),
    ensures
        encode_model_quad(q).wf(),
        encode_model_quad(q).graph_name is DefaultGraph == (q.graph_name is DefaultGraph),
{
    lemma_encode_term_wf(q.subject);
    lemma_encode_term_wf(q.predicate);
    lemma_encode_term_wf(q.object);
    match q.graph_name {
        GraphName::BlankNode(b) => {
            lemma_encode_blank_node_wf(b);
        },
        _ => {},
    }
}

/// The inline form of a text, if the text is short enough for one.
fn small_string_of_text(value: &str) -> (r: Option<SmallString>)
    ensures
        r is Some == is_small_text(value@),
        r matches Some(s) ==> s == small_text(value@),
{
    match SmallString::from_str(value) {
        Ok(s) => {
            proof {
                lemma_small_string_of(s);
            }
            Some(s)
        },
        Err(_) => None,
    }
}

impl EncodedTerm {
    /// The encoded form of a named node.
    pub fn from_named_node(n: &NamedNode) -> (t: EncodedTerm)
        ensures
            t == encode_named_node(*n),
    {
        EncodedTerm::NamedNode { iri_id: StrHash::new(n.iri.as_str()) }
    }

    /// The encoded form of a blank node.
    pub fn from_blank_node(b: &BlankNode) -> (t: EncodedTerm)
        ensures
            t == encode_blank_node(*b),
    {
        match b {
            BlankNode::Anonymous { number } => EncodedTerm::NumericalBlankNode { id: *number },
            BlankNode::Named { id } => match small_string_of_text(id.as_str()) {
                Some(s) => EncodedTerm::SmallBlankNode(s),
                None => EncodedTerm::BigBlankNode { id_id: StrHash::new(id.as_str()) },
            },
        }
    }

    /// The encoded form of a literal.
    pub fn from_literal(l: &Literal) -> (t: EncodedTerm)
        ensures
            t == encode_literal(*l),
    {
        match l {
            Literal::Simple { value } => match small_string_of_text(value.as_str()) {
                Some(s) => EncodedTerm::SmallStringLiteral(s),
                None => EncodedTerm::BigStringLiteral { value_id: StrHash::new(value.as_str()) },
            },
            Literal::LanguageTagged { value, language } => {
                match small_string_of_text(value.as_str()) {
                    Some(value) => match small_string_of_text(language.as_str()) {
                        Some(language) => EncodedTerm::SmallSmallLangStringLiteral {
                            value,
                            language,
                        },
                        None => EncodedTerm::SmallBigLangStringLiteral {
                            value,
                            language_id: StrHash::new(language.as_str()),
                        },
                    },
                    None => match small_string_of_text(language.as_str()) {
                        Some(language) => EncodedTerm::BigSmallLangStringLiteral {
                            value_id: StrHash::new(value.as_str()),
                            language,
                        },
                        None => EncodedTerm::BigBigLangStringLiteral {
                            value_id: StrHash::new(value.as_str()),
                            language_id: StrHash::new(language.as_str()),
                        },
                    },
                }
            },
            Literal::Typed { value, datatype } => match small_string_of_text(value.as_str()) {
                Some(value) => EncodedTerm::SmallTypedLiteral {
                    value,
                    datatype_id: StrHash::new(datatype.iri.as_str()),
                },
                None => EncodedTerm::BigTypedLiteral {
                    value_id: StrHash::new(value.as_str()),
                    datatype_id: StrHash::new(datatype.iri.as_str()),
                },
            },
            Literal::Boolean(v) => EncodedTerm::BooleanLiteral(*v),
            Literal::Float(v) => EncodedTerm::FloatLiteral(*v),
            Literal::Double(v) => EncodedTerm::DoubleLiteral(*v),
            Literal::Integer(v) => EncodedTerm::IntegerLiteral(*v),
            Literal::Decimal(v) => EncodedTerm::DecimalLiteral(*v),
            Literal::DateTime(v) => EncodedTerm::DateTimeLiteral(*v),
            Literal::Time(v) => EncodedTerm::TimeLiteral(*v),
            Literal::Date(v) => EncodedTerm::DateLiteral(*v),
            Literal::GYearMonth(v) => EncodedTerm::GYearMonthLiteral(*v),
            Literal::GYear(v) => EncodedTerm::GYearLiteral(*v),
            Literal::GMonthDay(v) => EncodedTerm::GMonthDayLiteral(*v),
            Literal::GDay(v) => EncodedTerm::GDayLiteral(*v),
            Literal::GMonth(v) => EncodedTerm::GMonthLiteral(*v),
            Literal::Duration(v) => EncodedTerm::DurationLiteral(*v),
            Literal::YearMonthDuration(v) => EncodedTerm::YearMonthDurationLiteral(*v),
            Literal::DayTimeDuration(v) => EncodedTerm::DayTimeDurationLiteral(*v),
        }
    }

    /// The encoded form of a term.
    pub fn from_term(term: &Term) -> (t: EncodedTerm)
        ensures
            t == encode_model_term(*term),
        decreases *term,
    {
        match term {
            Term::NamedNode(n) => EncodedTerm::from_named_node(n),
            Term::BlankNode(b) => EncodedTerm::from_blank_node(b),
            Term::Literal(l) => EncodedTerm::from_literal(l),
            Term::Triple(triple) => EncodedTerm::Triple(
                Box::new(
                    EncodedTriple {
                        subject: EncodedTerm::from_term(&triple.subject),
                        predicate: EncodedTerm::from_term(&triple.predicate),
                        object: EncodedTerm::from_term(&triple.object),
                    },
                ),
            ),
        }
    }

    /// The encoded form of the name of a graph.
    pub fn from_graph_name(g: &GraphName) -> (t: EncodedTerm)
        ensures
            t == encode_graph_name(*g),
    {
        match g {
            GraphName::NamedNode(n) => EncodedTerm::from_named_node(n),
            GraphName::BlankNode(b) => EncodedTerm::from_blank_node(b),
            GraphName::DefaultGraph => EncodedTerm::DefaultGraph,
        }
    }

    /// The encoded form of a named or blank node.
    pub fn from_named_or_blank_node(g: &NamedOrBlankNode) -> (t: EncodedTerm)
        ensures
            t == encode_named_or_blank_node(*g),
    {
        match g {
            NamedOrBlankNode::NamedNode(n) => EncodedTerm::from_named_node(n),
            NamedOrBlankNode::BlankNode(b) => EncodedTerm::from_blank_node(b),
        }
    }
}

impl EncodedQuad {
    /// The encoded form of a quad.
    pub fn from_quad(q: &Quad) -> (e: EncodedQuad)
        ensures
            e == encode_model_quad(*q),
    {
        EncodedQuad {
            subject: EncodedTerm::from_term(&q.subject),
            predicate: EncodedTerm::from_term(&q.predicate),
            object: EncodedTerm::from_term(&q.object),
            graph_name: EncodedTerm::from_graph_name(&q.graph_name),
        }
    }
}

} // verus!
