//! The string table: from the hash of a text to the text.

use vstd::prelude::*;
use vstd::utf8::encode_utf8;
use crate::endian::u128_bytes;
use crate::model::BlankNode;
use crate::model::GraphName;
use crate::model::Literal;
use crate::model::NamedOrBlankNode;
use crate::model::Quad;
use crate::model::Term;
use crate::numeric_encoder::hash_of_text;
use crate::numeric_encoder::is_small_text;

verus! {

/// A table from keys to values.
pub type Rows = Map<Seq<u8>, Seq<u8>>;

/// The key of a text in the string table: its hash in sixteen bytes.
pub open spec fn str_key(text: Seq<char>) -> Seq<u8> {
    u128_bytes(hash_of_text(text).hash)
}

/// The string table with `text`, unless it has a row for its hash already.
pub open spec fn with_string(table: Rows, text: Seq<char>) -> Rows {
    if table.contains_key(str_key(text)) {
        table
    } else {
        table.insert(str_key(text), encode_utf8(text))
    }
}

/// The string table with each of `texts`, added first to last.
pub open spec fn with_strings(table: Rows, texts: Seq<Seq<char>>) -> Rows
    decreases texts.len(),
{
    if texts.len() == 0 {
        table
    } else {
        with_string(with_strings(table, texts.drop_last()), texts.last())
    }
}

/// The texts of a blank node that the string table has to hold.
pub open spec fn blank_node_strings(b: BlankNode) -> Seq<Seq<char>> {
    match b {
        BlankNode::Named { id } => if is_small_text(id@) {
            Seq::empty()
        } else {
            seq![id@]
        },
        BlankNode::Anonymous { number } => Seq::empty(),
    }
}

/// The text itself if it is too long to be held inline.
pub open spec fn long_text(text: Seq<char>) -> Seq<Seq<char>> {
    if is_small_text(text) {
        Seq::empty()
    } else {
        seq![text]
    }
}

/// The texts of a literal that the string table has to hold.
pub open spec fn literal_strings(l: Literal) -> Seq<Seq<char>> {
    match l {
        Literal::Simple { value } => long_text(value@),
        Literal::LanguageTagged { value, language } => long_text(value@) + long_text(language@),
        Literal::Typed { value, datatype } => seq![datatype.iri@] + long_text(value@),
        _ => Seq::empty(),
    }
}

/// The texts of a term that the string table has to hold: those that the
/// encoded term holds by their hash.
pub open spec fn term_strings(t: Term) -> Seq<Seq<char>>
    decreases t,
{
    match t {
        Term::NamedNode(n) => seq![n.iri@],
        Term::BlankNode(b) => blank_node_strings(b),
        Term::Literal(l) => literal_strings(l),
        Term::Triple(triple) => term_strings(triple.subject) + term_strings(triple.predicate)
            + term_strings(triple.object),
    }
}

/// The texts of the name of a graph that the string table has to hold.
pub open spec fn graph_name_strings(g: GraphName) -> Seq<Seq<char>> {
    match g {
        GraphName::NamedNode(n) => seq![n.iri@],
        GraphName::BlankNode(b) => blank_node_strings(b),
        GraphName::DefaultGraph => Seq::empty(),
    }
}

/// The texts of a named or blank node that the string table has to hold.
pub open spec fn named_or_blank_node_strings(g: NamedOrBlankNode) -> Seq<Seq<char>> {
    match g {
        NamedOrBlankNode::NamedNode(n) => seq![n.iri@],
        NamedOrBlankNode::BlankNode(b) => blank_node_strings(b),
    }
}

/// The texts of the subject, predicate and object of a quad.
pub open spec fn triple_strings(q: Quad) -> Seq<Seq<char>> {
    term_strings(q.subject) + term_strings(q.predicate) + term_strings(q.object)
}

/// Adding texts one list after the other is adding their concatenation.
pub proof fn lemma_with_strings_concat(table: Rows, a: Seq<Seq<char>>, b: Seq<Seq<char>>)
    ensures
        with_strings(table, a + b) == with_strings(with_strings(table, a), b),
    decreases b.len(),
{
    if b.len() == 0 {
        assert(a + b =~= a);
    } else {
        lemma_with_strings_concat(table, a, b.drop_last());
        assert((a + b).drop_last() =~= a + b.drop_last());
        assert((a + b).last() == b.last());
    }
}

/// Adding one text is adding the list of that text.
pub proof fn lemma_with_strings_one(table: Rows, text: Seq<char>)
    ensures
        with_strings(table, seq![text]) == with_string(table, text),
        with_strings(table, Seq::empty()) == table,
{
    reveal_with_fuel(with_strings, 2);
    assert(seq![text].drop_last() =~= Seq::<Seq<char>>::empty());
}

/// Adding texts removes no row and changes none.
pub proof fn lemma_with_strings_grows(table: Rows, texts: Seq<Seq<char>>)
    ensures
        table.submap_of(with_strings(table, texts)),
        table.dom().finite() ==> with_strings(table, texts).dom().finite(),
    decreases texts.len(),
{
    if texts.len() > 0 {
        lemma_with_strings_grows(table, texts.drop_last());
        let before = with_strings(table, texts.drop_last());
        let after = with_string(before, texts.last());
        assert(before.submap_of(after));
        assert forall|k: Seq<u8>| #[trigger] table.dom().contains(k) implies #[trigger] after.dom().contains(
            k,
        ) && table[k] == after[k] by {
            assert(before.dom().contains(k));
        }
    }
}

/// After texts were added, the string table has a row for each of them.
pub proof fn lemma_with_strings_holds(table: Rows, texts: Seq<Seq<char>>, i: int)
    requires
        0 <= i < texts.len(),
    ensures
        with_strings(table, texts).contains_key(str_key(texts[i])),
    decreases texts.len(),
{
    if i < texts.len() - 1 {
        lemma_with_strings_holds(table, texts.drop_last(), i);
    }
}

} // verus!
