//! RDF terms and quads with their strings written out.

use vstd::prelude::*;
use crate::numeric_encoder::Duration;
use crate::numeric_encoder::Timestamp;

verus! {

/// An IRI.
#[derive(Debug, PartialEq, Eq, Hash)]
pub struct NamedNode {
    pub iri: String,
}

impl NamedNode {
    /// The named node of an IRI, which is taken as it is.
    pub fn new_unchecked(iri: &str) -> (n: NamedNode)
        ensures
            n.iri@ == iri@,
    {
        NamedNode { iri: iri.to_owned() }
    }

    /// The IRI.
    pub fn as_str(&self) -> (s: &str)
        ensures
            s@ == self.iri@,
    {
        self.iri.as_str()
    }
}

impl Clone for NamedNode {
    fn clone(&self) -> (r: Self)
        ensures
            r == *self,
    {
        NamedNode { iri: self.iri.clone() }
    }
}

/// A blank node: one with a name, or one that only has a number.
#[derive(Debug, PartialEq, Eq, Hash)]
pub enum BlankNode {
    Named { id: String },
    Anonymous { number: u128 },
}

impl BlankNode {
    /// The blank node of a name, which is taken as it is.
    pub fn new_unchecked(id: &str) -> (b: BlankNode)
        ensures
            b matches BlankNode::Named { id: s } && s@ == id@,
    {
        BlankNode::Named { id: id.to_owned() }
    }

    /// The blank node of a number.
    pub fn new_from_unique_id(id: u128) -> (b: BlankNode)
        ensures
            b == (BlankNode::Anonymous { number: id }),
    {
        BlankNode::Anonymous { number: id }
    }
}

impl Clone for BlankNode {
    fn clone(&self) -> (r: Self)
        ensures
            r == *self,
    {
        match self {
            BlankNode::Named { id } => BlankNode::Named { id: id.clone() },
            BlankNode::Anonymous { number } => BlankNode::Anonymous { number: *number },
        }
    }
}

/// A literal. The values of the numeric and temporal datatypes are held
/// as numbers: floating-point numbers by their IEEE 754 bits, decimals by
/// their scaled integer.
#[derive(Debug, PartialEq, Eq, Hash)]
pub enum Literal {
    Simple { value: String },
    LanguageTagged { value: String, language: String },
    Typed { value: String, datatype: NamedNode },
    Boolean(bool),
    Float(u32),
    Double(u64),
    Integer(i64),
    Decimal(i128),
    DateTime(Timestamp),
    Time(Timestamp),
    Date(Timestamp),
    GYearMonth(Timestamp),
    GYear(Timestamp),
    GMonthDay(Timestamp),
    GDay(Timestamp),
    GMonth(Timestamp),
    Duration(Duration),
    YearMonthDuration(i64),
    DayTimeDuration(i128),
}

impl Literal {
    /// A literal without language or datatype.
    pub fn new_simple_literal(value: &str) -> (l: Literal)
        ensures
            l matches Literal::Simple { value: v } && v@ == value@,
    {
        Literal::Simple { value: value.to_owned() }
    }

    /// A literal with a language tag, which is taken as it is.
    pub fn new_language_tagged_literal_unchecked(value: &str, language: &str) -> (l: Literal)
        ensures
            l matches Literal::LanguageTagged { value: v, language: g } && v@ == value@ && g@
                == language@,
    {
        Literal::LanguageTagged { value: value.to_owned(), language: language.to_owned() }
    }

    /// A literal with a datatype, whose lexical form is kept as it is.
    pub fn new_typed_literal(value: &str, datatype: NamedNode) -> (l: Literal)
        ensures
            l matches Literal::Typed { value: v, datatype: d } && v@ == value@ && d == datatype,
    {
        Literal::Typed { value: value.to_owned(), datatype }
    }
}

impl Clone for Literal {
    fn clone(&self) -> (r: Self)
        ensures
            r == *self,
    {
        match self {
            Literal::Simple { value } => Literal::Simple { value: value.clone() },
            Literal::LanguageTagged { value, language } => Literal::LanguageTagged {
                value: value.clone(),
                language: language.clone(),
            },
            Literal::Typed { value, datatype } => Literal::Typed {
                value: value.clone(),
                datatype: datatype.clone(),
            },
            Literal::Boolean(v) => Literal::Boolean(*v),
            Literal::Float(v) => Literal::Float(*v),
            Literal::Double(v) => Literal::Double(*v),
            Literal::Integer(v) => Literal::Integer(*v),
            Literal::Decimal(v) => Literal::Decimal(*v),
            Literal::DateTime(v) => Literal::DateTime(*v),
            Literal::Time(v) => Literal::Time(*v),
            Literal::Date(v) => Literal::Date(*v),
            Literal::GYearMonth(v) => Literal::GYearMonth(*v),
            Literal::GYear(v) => Literal::GYear(*v),
            Literal::GMonthDay(v) => Literal::GMonthDay(*v),
            Literal::GDay(v) => Literal::GDay(*v),
            Literal::GMonth(v) => Literal::GMonth(*v),
            Literal::Duration(v) => Literal::Duration(*v),
            Literal::YearMonthDuration(v) => Literal::YearMonthDuration(*v),
            Literal::DayTimeDuration(v) => Literal::DayTimeDuration(*v),
        }
    }
}

/// A quoted triple.
#[derive(Debug, PartialEq, Eq, Hash)]
pub struct Triple {
    pub subject: Term,
    pub predicate: Term,
    pub object: Term,
}

/// A term.
#[derive(Debug, PartialEq, Eq, Hash)]
pub enum Term {
    NamedNode(NamedNode),
    BlankNode(BlankNode),
    Literal(Literal),
    Triple(Box<Triple>),
}

impl Clone for Term {
    fn clone(&self) -> (r: Self)
        ensures
            r == *self,
        decreases self,
    {
        match self {
            Term::NamedNode(n) => Term::NamedNode(n.clone()),
            Term::BlankNode(b) => Term::BlankNode(b.clone()),
            Term::Literal(l) => Term::Literal(l.clone()),
            Term::Triple(t) => Term::Triple(
                Box::new(
                    Triple {
                        subject: t.subject.clone(),
                        predicate: t.predicate.clone(),
                        object: t.object.clone(),
                    },
                ),
            ),
        }
    }
}

impl Clone for Triple {
    fn clone(&self) -> (r: Self)
        ensures
            r == *self,
    {
        Triple {
            subject: self.subject.clone(),
            predicate: self.predicate.clone(),
            object: self.object.clone(),
        }
    }
}

/// A named or a blank node: what names a graph other than the default one.
#[derive(Debug, PartialEq, Eq, Hash)]
pub enum NamedOrBlankNode {
    NamedNode(NamedNode),
    BlankNode(BlankNode),
}

impl Clone for NamedOrBlankNode {
    fn clone(&self) -> (r: Self)
        ensures
            r == *self,
    {
        match self {
            NamedOrBlankNode::NamedNode(n) => NamedOrBlankNode::NamedNode(n.clone()),
            NamedOrBlankNode::BlankNode(b) => NamedOrBlankNode::BlankNode(b.clone()),
        }
    }
}

/// The name of a graph.
#[derive(Debug, PartialEq, Eq, Hash)]
pub enum GraphName {
    NamedNode(NamedNode),
    BlankNode(BlankNode),
    DefaultGraph,
}

impl GraphName {
    /// Whether this is the default graph.
    pub fn is_default_graph(&self) -> (b: bool)
        ensures
            b == (*self is DefaultGraph),
    {
        match self {
            GraphName::DefaultGraph => true,
            _ => false,
        }
    }
}

impl Clone for GraphName {
    fn clone(&self) -> (r: Self)
        ensures
            r == *self,
    {
        match self {
            GraphName::NamedNode(n) => GraphName::NamedNode(n.clone()),
            GraphName::BlankNode(b) => GraphName::BlankNode(b.clone()),
            GraphName::DefaultGraph => GraphName::DefaultGraph,
        }
    }
}

/// A quad.
#[derive(Debug, PartialEq, Eq, Hash)]
pub struct Quad {
    pub subject: Term,
    pub predicate: Term,
    pub object: Term,
    pub graph_name: GraphName,
}

impl Quad {
    /// The quad of three terms and the name of a graph.
    pub fn new(subject: Term, predicate: Term, object: Term, graph_name: GraphName) -> (q: Quad)
        ensures
            q == (Quad { subject, predicate, object, graph_name }),
    {
        Quad { subject, predicate, object, graph_name }
    }
}

impl Clone for Quad {
    fn clone(&self) -> (r: Self)
        ensures
            r == *self,
    {
        Quad {
            subject: self.subject.clone(),
            predicate: self.predicate.clone(),
            object: self.object.clone(),
            graph_name: self.graph_name.clone(),
        }
    }
}

} // verus!
