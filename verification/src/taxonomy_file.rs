//! The taxonomy file: lines of three IRIs in angle brackets, of which
//! those with a sub-class or sub-property predicate make the taxonomies
//! of classes and of properties.

use vstd::prelude::*;
use vstd::utf8::decode_utf8;
use vstd::utf8::encode_utf8;
use vstd::utf8::valid_utf8;
use crate::backend::compare_keys;
use crate::backend::copy_bytes;
use crate::backend::KeyOrder;
use crate::numeric_encoder::hash_of_text;
use crate::taxonomy::insertion;
use crate::text::string_from_utf8;
use crate::taxonomy::MultiTree;
use crate::taxonomy::TaxonomyError;
use crate::vocab::LUBM_SUB_ORGANIZATION;
use crate::vocab::OWL_CLASS;
use crate::vocab::RDFS_SUB_CLASS_OF;
use crate::vocab::RDFS_SUB_PROPERTY_OF;
use crate::vocab::RDF_PROPERTY;

verus! {

/// The place of the first space at or behind `from`, or the length of the
/// line if there is none.
pub open spec fn find_space(s: Seq<u8>, from: int) -> int
    decreases s.len() - from,
{
    if from < 0 || from >= s.len() {
        s.len() as int
    } else if s[from] == 32 {
        from
    } else {
        find_space(s, from + 1)
    }
}

/// The IRI between the angle brackets of a token.
pub open spec fn iri_in(token: Seq<u8>) -> Option<Seq<u8>> {
    if token.len() >= 2 && token[0] == 60 && token.last() == 62 {
        Some(token.subrange(1, token.len() - 1))
    } else {
        None
    }
}

/// The three IRIs of a line: those of its first three tokens, where a
/// token ends at a space. A line with fewer tokens, or with one of the
/// three not in angle brackets, has none.
pub open spec fn line_iris(s: Seq<u8>) -> Option<(Seq<u8>, Seq<u8>, Seq<u8>)> {
    let e0 = find_space(s, 0);
    let e1 = find_space(s, e0 + 1);
    let e2 = find_space(s, e1 + 1);
    if e0 >= s.len() || e1 >= s.len() {
        None
    } else {
        match (
            iri_in(s.subrange(0, e0)),
            iri_in(s.subrange(e0 + 1, e1)),
            iri_in(s.subrange(e1 + 1, e2)),
        ) {
            (Some(a), Some(b), Some(c)) => Some((a, b, c)),
            _ => None,
        }
    }
}

/// The taxonomy to which a line adds.
#[derive(Clone, Copy, Debug, PartialEq, Eq, Structural)]
pub enum TaxonomyKind {
    Class,
    Property,
}

/// What a line adds to a taxonomy: to which taxonomy, and which node below
/// which. A line whose predicate is none of the three that count, or whose
/// subject or object is no text, adds nothing.
pub open spec fn line_edge(s: Seq<u8>) -> Option<(TaxonomyKind, Seq<char>, Seq<char>)> {
    match line_iris(s) {
        Some((child, predicate, parent)) => {
            let kind = if predicate == encode_utf8(RDFS_SUB_CLASS_OF@) || predicate == encode_utf8(
                LUBM_SUB_ORGANIZATION@,
            ) {
                Some(TaxonomyKind::Class)
            } else if predicate == encode_utf8(RDFS_SUB_PROPERTY_OF@) {
                Some(TaxonomyKind::Property)
            } else {
                None
            };
            match kind {
                Some(kind) => if valid_utf8(child) && valid_utf8(parent) {
                    Some((kind, decode_utf8(child), decode_utf8(parent)))
                } else {
                    None
                },
                None => None,
            }
        },
        None => None,
    }
}

/// The place of the first space at or behind `from`.
fn next_space(line: &[u8], from: usize) -> (end: usize)
    requires
        from <= line@.len(),
    ensures
        end == find_space(line@, from as int),
        from <= end <= line@.len(),
{
    let n: usize = line.len();
    let mut i: usize = from;
    while i < n && line[i] != 32
        invariant
            from <= i <= n,
            n == line@.len(),
            find_space(line@, from as int) == find_space(line@, i as int),
        decreases n - i,
    {
        i = i + 1;
    }
    i
}

/// The IRI between the angle brackets of the token from `start` to `end`.
fn token_iri(line: &[u8], start: usize, end: usize) -> (r: Option<Vec<u8>>)
    requires
        start <= end <= line@.len(),
    ensures
        match r {
            Some(iri) => iri_in(line@.subrange(start as int, end as int)) == Some(iri@),
            None => iri_in(line@.subrange(start as int, end as int)) is None,
        },
{
    let ghost token = line@.subrange(start as int, end as int);
    if end - start >= 2 && line[start] == 60 && line[end - 1] == 62 {
        let inner = vstd::slice::slice_subrange(line, start + 1, end - 1);
        proof {
            assert(token[0] == line@[start as int]);
            assert(token.last() == line@[end - 1]);
            assert(token.subrange(1, token.len() - 1) =~= inner@);
        }
        Some(copy_bytes(inner))
    } else {
        proof {
            if end - start >= 2 {
                assert(token[0] == line@[start as int]);
                assert(token.last() == line@[end - 1]);
            }
        }
        None
    }
}

/// The three IRIs of a line.
pub fn parse_line(line: &[u8]) -> (r: Option<(Vec<u8>, Vec<u8>, Vec<u8>)>)
    ensures
        match r {
            Some((a, b, c)) => line_iris(line@) == Some((a@, b@, c@)),
            None => line_iris(line@) is None,
        },
{
    let n: usize = line.len();
    let e0 = next_space(line, 0);
    if e0 >= n {
        return None;
    }
    let e1 = next_space(line, e0 + 1);
    if e1 >= n {
        return None;
    }
    let e2 = next_space(line, e1 + 1);
    let a = token_iri(line, 0, e0);
    let b = token_iri(line, e0 + 1, e1);
    let c = token_iri(line, e1 + 1, e2);
    match (a, b, c) {
        (Some(a), Some(b), Some(c)) => Some((a, b, c)),
        _ => None,
    }
}

/// Whether two byte strings are the same.
fn same_bytes(a: &[u8], b: &[u8]) -> (r: bool)
    ensures
        r == (a@ == b@),
{
    match compare_keys(a, b) {
        KeyOrder::Equal => true,
        _ => false,
    }
}

/// What a line adds to a taxonomy.
pub fn parse_edge(line: &[u8]) -> (r: Option<(TaxonomyKind, String, String)>)
    ensures
        match r {
            Some((kind, child, parent)) => line_edge(line@) == Some((kind, child@, parent@)),
            None => line_edge(line@) is None,
        },
{
    let (child, predicate, parent) = match parse_line(line) {
        Some(iris) => iris,
        None => {
            return None;
        },
    };
    let kind = if same_bytes(predicate.as_slice(), RDFS_SUB_CLASS_OF.as_bytes()) || same_bytes(
        predicate.as_slice(),
        LUBM_SUB_ORGANIZATION.as_bytes(),
    ) {
        TaxonomyKind::Class
    } else if same_bytes(predicate.as_slice(), RDFS_SUB_PROPERTY_OF.as_bytes()) {
        TaxonomyKind::Property
    } else {
        return None;
    };
    let ghost child_bytes = child@;
    let ghost parent_bytes = parent@;
    let child = match string_from_utf8(child) {
        Some(text) => text,
        None => {
            return None;
        },
    };
    let parent = match string_from_utf8(parent) {
        Some(text) => text,
        None => {
            return None;
        },
    };
    proof {
        vstd::utf8::encode_utf8_decode_utf8(child@);
        vstd::utf8::encode_utf8_decode_utf8(parent@);
    }
    Some((kind, child, parent))
}

/// The sub-relations that the lines of a file add to the taxonomy of a
/// kind, first to last.
pub open spec fn file_edges(lines: Seq<Seq<u8>>, kind: TaxonomyKind) -> Seq<(Seq<char>, Seq<char>)>
    decreases lines.len(),
{
    if lines.len() == 0 {
        Seq::empty()
    } else {
        match line_edge(lines.last()) {
            Some((k, child, parent)) => if k == kind {
                file_edges(lines.drop_last(), kind).push((child, parent))
            } else {
                file_edges(lines.drop_last(), kind)
            },
            None => file_edges(lines.drop_last(), kind),
        }
    }
}

/// Whether a taxonomy is what a taxonomy becomes when sub-relations are
/// inserted into it, first to last.
pub open spec fn grown(before: MultiTree, after: MultiTree, edges: Seq<(Seq<char>, Seq<char>)>) -> bool
    decreases edges.len(),
{
    if edges.len() == 0 {
        after.nodes() == before.nodes()
    } else {
        exists|mid: MultiTree|
            mid.wf() && grown(before, mid, edges.drop_last()) && #[trigger] insertion(
                mid,
                after,
                edges.last().0,
                edges.last().1,
            )
    }
}

/// Whether two taxonomies have the same nodes, in the same places, with
/// the same sub-nodes.
pub open spec fn alike(a: MultiTree, b: MultiTree) -> bool {
    a.wf() && b.wf() && a.same_graph(&b)
}

/// The place of the node with a hash is the same in taxonomies that are
/// alike.
proof fn lemma_alike_index(a: MultiTree, b: MultiTree, h: crate::numeric_encoder::StrHash)
    requires
        alike(a, b),
    ensures
        a.index_of(h) == b.index_of(h),
{
    if a.index_of(h) is Some {
        let i = a.index_of(h)->Some_0;
        assert(b.nodes()[i].hash() == h);
        b.lemma_index_of(h, i);
    } else if b.index_of(h) is Some {
        let i = b.index_of(h)->Some_0;
        assert(a.nodes()[i].hash() == h);
    }
}

/// Inserting the same sub-relation into taxonomies that are alike gives
/// taxonomies that are alike.
#[verifier::rlimit(30)]
proof fn lemma_insertion_alike(
    a: MultiTree,
    b: MultiTree,
    a2: MultiTree,
    b2: MultiTree,
    child: Seq<char>,
    parent: Seq<char>,
)
    requires
        alike(a, b),
        a2.wf(),
        b2.wf(),
        insertion(a, a2, child, parent),
        insertion(b, b2, child, parent),
    ensures
        alike(a2, b2),
{
    let hc = hash_of_text(child);
    let hp = hash_of_text(parent);
    lemma_alike_index(a, b, hc);
    lemma_alike_index(a, b, hp);
    assert(a.nodes()[0].hash() == b.nodes()[0].hash());
    if hc == hp || hc == a.nodes()[0].hash() {
    } else {
        let n = a.nodes().len() as int;
        assert(a2.nodes().len() == b2.nodes().len());
        assert forall|i: int| 0 <= i < a2.nodes().len() implies (#[trigger] b2.nodes()[i]).data()
            == a2.nodes()[i].data() && b2.nodes()[i].hash() == a2.nodes()[i].hash()
            && b2.nodes()[i].children() == a2.nodes()[i].children() by {
            assert(a2.nodes()[i].hash() == hash_of_text(a2.nodes()[i].data()));
            assert(b2.nodes()[i].hash() == hash_of_text(b2.nodes()[i].data()));
            if i < n {
                assert(a.nodes()[i].children() == b.nodes()[i].children());
                assert(a.nodes()[i].data() == b.nodes()[i].data());
            }
        }
    }
}

/// Taxonomies that grow from taxonomies that are alike by the same
/// sub-relations are alike.
proof fn lemma_grown_alike(
    a: MultiTree,
    b: MultiTree,
    a2: MultiTree,
    b2: MultiTree,
    edges: Seq<(Seq<char>, Seq<char>)>,
)
    requires
        alike(a, b),
        a2.wf(),
        b2.wf(),
        grown(a, a2, edges),
        grown(b, b2, edges),
    ensures
        alike(a2, b2),
    decreases edges.len(),
{
    if edges.len() == 0 {
        assert(a2.nodes() == a.nodes());
        assert(b2.nodes() == b.nodes());
    } else {
        let am = choose|mid: MultiTree|
            mid.wf() && grown(a, mid, edges.drop_last()) && #[trigger] insertion(
                mid,
                a2,
                edges.last().0,
                edges.last().1,
            );
        let bm = choose|mid: MultiTree|
            mid.wf() && grown(b, mid, edges.drop_last()) && #[trigger] insertion(
                mid,
                b2,
                edges.last().0,
                edges.last().1,
            );
        lemma_grown_alike(a, b, am, bm, edges.drop_last());
        lemma_insertion_alike(am, bm, a2, b2, edges.last().0, edges.last().1);
    }
}

/// Whether a taxonomy is a root alone, with sub-relations inserted.
pub open spec fn grown_from_root(tree: MultiTree, root: Seq<char>, edges: Seq<(Seq<char>, Seq<char>)>) -> bool {
    tree.wf() && exists|start: MultiTree|
        start.wf() && start.nodes().len() == 1 && start.nodes()[0].data() == root
            && start.nodes()[0].children().len() == 0 && #[trigger] grown(start, tree, edges)
}

/// Whether a taxonomy can be labelled: the visits of a walk from its root
/// can be counted, and every node is the root or below it.
pub open spec fn can_be_labelled(tree: MultiTree) -> bool {
    tree.countable() && tree.rooted()
}

/// Whether the taxonomy of a kind that the lines of a file make can be
/// labelled.
pub open spec fn file_can_be_labelled(root: Seq<char>, lines: Seq<Seq<u8>>, kind: TaxonomyKind) -> bool {
    exists|tree: MultiTree| #[trigger]
        grown_from_root(tree, root, file_edges(lines, kind)) && can_be_labelled(tree)
}

/// Whether `fault` is what stands against labelling the taxonomy of a
/// kind that the lines of a file make; nothing, where it can be labelled.
pub open spec fn file_fault_is(
    root: Seq<char>,
    lines: Seq<Seq<u8>>,
    kind: TaxonomyKind,
    fault: Option<TaxonomyError>,
) -> bool {
    exists|tree: MultiTree| #[trigger]
        grown_from_root(tree, root, file_edges(lines, kind)) && tree.fault() == fault
}

/// All taxonomies that grow from a root by the same sub-relations can be
/// labelled if one of them can, and the same stands against labelling
/// them if they cannot.
pub proof fn lemma_labelling_is_owed(
    tree: MultiTree,
    other: MultiTree,
    root: Seq<char>,
    edges: Seq<(Seq<char>, Seq<char>)>,
)
    requires
        grown_from_root(tree, root, edges),
        grown_from_root(other, root, edges),
    ensures
        can_be_labelled(tree) == can_be_labelled(other),
        tree.fault() == other.fault(),
{
    let a = choose|start: MultiTree|
        start.wf() && start.nodes().len() == 1 && start.nodes()[0].data() == root
            && start.nodes()[0].children().len() == 0 && #[trigger] grown(start, tree, edges);
    let b = choose|start: MultiTree|
        start.wf() && start.nodes().len() == 1 && start.nodes()[0].data() == root
            && start.nodes()[0].children().len() == 0 && #[trigger] grown(start, other, edges);
    assert(alike(a, b)) by {
        assert(a.nodes()[0].hash() == hash_of_text(a.nodes()[0].data()));
        assert(b.nodes()[0].hash() == hash_of_text(b.nodes()[0].data()));
        assert(a.nodes()[0].children() =~= b.nodes()[0].children());
    }
    lemma_grown_alike(a, b, tree, other, edges);
    tree.lemma_same_shape(&other);
    tree.lemma_same_graph_rooted(&other);
}

/// The bytes of the lines of a file.
pub open spec fn lines_bytes(lines: Seq<String>) -> Seq<Seq<u8>> {
    Seq::new(lines.len(), |i: int| encode_utf8(lines[i]@))
}

/// Whether a taxonomy is the one of a kind that the lines of a file make:
/// the root alone, with the sub-relations of the lines inserted, and
/// labelled.
pub open spec fn taxonomy_of(tree: MultiTree, root: Seq<char>, lines: Seq<Seq<u8>>, kind: TaxonomyKind) -> bool {
    &&& tree.labelled()
    &&& exists|start: MultiTree, unlabelled: MultiTree|
        start.wf() && start.nodes().len() == 1 && start.nodes()[0].data() == root
            && start.nodes()[0].children().len() == 0 && #[trigger] grown(
            start,
            unlabelled,
            file_edges(lines, kind),
        ) && #[trigger] unlabelled.same_graph(&tree)
}

/// Builds the taxonomy of classes and the taxonomy of properties from the
/// lines of a taxonomy file, and labels them. Fails if one of them cannot
/// be labelled.
#[verifier::rlimit(30)]
pub fn construct_tree(lines: &Vec<String>) -> (r: Result<(MultiTree, MultiTree), TaxonomyError>)
    ensures
        r matches Ok((class_tree, property_tree)) ==> class_tree.wf() && property_tree.wf()
            && taxonomy_of(class_tree, OWL_CLASS@, lines_bytes(lines@), TaxonomyKind::Class)
            && taxonomy_of(
            property_tree,
            RDF_PROPERTY@,
            lines_bytes(lines@),
            TaxonomyKind::Property,
        ),
        r is Ok == (file_can_be_labelled(OWL_CLASS@, lines_bytes(lines@), TaxonomyKind::Class)
            && file_can_be_labelled(RDF_PROPERTY@, lines_bytes(lines@), TaxonomyKind::Property)),
        r matches Err(e) ==> file_fault_is(
            OWL_CLASS@,
            lines_bytes(lines@),
            TaxonomyKind::Class,
            Some(e),
        ) || (file_fault_is(OWL_CLASS@, lines_bytes(lines@), TaxonomyKind::Class, None)
            && file_fault_is(RDF_PROPERTY@, lines_bytes(lines@), TaxonomyKind::Property, Some(e))),
{
    let mut class_tree = MultiTree::new(OWL_CLASS);
    let mut property_tree = MultiTree::new(RDF_PROPERTY);
    let ghost class_start = class_tree;
    let ghost property_start = property_tree;
    let ghost all = lines_bytes(lines@);
    let mut i: usize = 0;
    proof {
        assert(all.subrange(0, 0) =~= Seq::<Seq<u8>>::empty());
    }
    while i < lines.len()
        invariant
            i <= lines@.len(),
            all == lines_bytes(lines@),
            class_tree.wf(),
            property_tree.wf(),
            grown(class_start, class_tree, file_edges(all.subrange(0, i as int), TaxonomyKind::Class)),
            grown(
                property_start,
                property_tree,
                file_edges(all.subrange(0, i as int), TaxonomyKind::Property),
            ),
        decreases lines@.len() - i,
    {
        let ghost part = all.subrange(0, i as int);
        let ghost next = all.subrange(0, i + 1);
        let ghost class_mid = class_tree;
        let ghost property_mid = property_tree;
        proof {
            assert(next.drop_last() =~= part);
            assert(next.last() == encode_utf8(lines@[i as int]@));
        }
        let edge = parse_edge(lines[i].as_str().as_bytes());
        proof {
            assert(line_edge(next.last()) == line_edge(encode_utf8(lines@[i as int]@)));
        }
        match edge {
            Some((kind, child, parent)) => {
                match kind {
                    TaxonomyKind::Class => {
                        class_tree.insert(child.as_str(), parent.as_str());
                        proof {
                            let edges = file_edges(next, TaxonomyKind::Class);
                            assert(edges == file_edges(part, TaxonomyKind::Class).push(
                                (child@, parent@),
                            ));
                            assert(edges.drop_last() =~= file_edges(part, TaxonomyKind::Class));
                            assert(edges.last() == (child@, parent@));
                            assert(grown(class_start, class_mid, edges.drop_last()));
                            assert(edges.len() > 0);
                            assert(class_mid.wf() && grown(class_start, class_mid, edges.drop_last())
                                && insertion(
                                class_mid,
                                class_tree,
                                edges.last().0,
                                edges.last().1,
                            ));
                            assert(grown(class_start, class_tree, edges));
                            assert(file_edges(next, TaxonomyKind::Property) == file_edges(
                                part,
                                TaxonomyKind::Property,
                            ));
                        }
                    },
                    TaxonomyKind::Property => {
                        property_tree.insert(child.as_str(), parent.as_str());
                        proof {
                            let edges = file_edges(next, TaxonomyKind::Property);
                            assert(edges == file_edges(part, TaxonomyKind::Property).push(
                                (child@, parent@),
                            ));
                            assert(edges.drop_last() =~= file_edges(part, TaxonomyKind::Property));
                            assert(edges.last() == (child@, parent@));
                            assert(grown(property_start, property_mid, edges.drop_last()));
                            assert(edges.len() > 0);
                            assert(property_mid.wf() && grown(
                                property_start,
                                property_mid,
                                edges.drop_last(),
                            ) && insertion(
                                property_mid,
                                property_tree,
                                edges.last().0,
                                edges.last().1,
                            ));
                            assert(grown(property_start, property_tree, edges));
                            assert(file_edges(next, TaxonomyKind::Class) == file_edges(
                                part,
                                TaxonomyKind::Class,
                            ));
                        }
                    },
                }
            },
            None => {
                proof {
                    assert(file_edges(next, TaxonomyKind::Class) == file_edges(
                        part,
                        TaxonomyKind::Class,
                    ));
                    assert(file_edges(next, TaxonomyKind::Property) == file_edges(
                        part,
                        TaxonomyKind::Property,
                    ));
                }
            },
        }
        i = i + 1;
    }
    proof {
        assert(all.subrange(0, lines@.len() as int) =~= all);
    }
    let ghost class_grown = class_tree;
    let ghost property_grown = property_tree;
    proof {
        let class_edges = file_edges(all, TaxonomyKind::Class);
        let property_edges = file_edges(all, TaxonomyKind::Property);
        assert(grown_from_root(class_grown, OWL_CLASS@, class_edges)) by {
            assert(grown(class_start, class_grown, class_edges));
        }
        assert(grown_from_root(property_grown, RDF_PROPERTY@, property_edges)) by {
            assert(grown(property_start, property_grown, property_edges));
        }
        assert forall|tree: MultiTree| #[trigger]
            grown_from_root(tree, OWL_CLASS@, class_edges) implies can_be_labelled(tree)
            == can_be_labelled(class_grown) by {
            lemma_labelling_is_owed(tree, class_grown, OWL_CLASS@, class_edges);
        }
        assert forall|tree: MultiTree| #[trigger]
            grown_from_root(tree, RDF_PROPERTY@, property_edges) implies can_be_labelled(tree)
            == can_be_labelled(property_grown) by {
            lemma_labelling_is_owed(tree, property_grown, RDF_PROPERTY@, property_edges);
        }
    }
    match class_tree.encode() {
        Ok(()) => {},
        Err(e) => {
            proof {
                assert(grown_from_root(class_grown, OWL_CLASS@, file_edges(all, TaxonomyKind::Class))
                    && class_grown.fault() == Some(e));
            }
            return Err(e);
        },
    }
    match property_tree.encode() {
        Ok(()) => {},
        Err(e) => {
            proof {
                assert(grown_from_root(class_grown, OWL_CLASS@, file_edges(all, TaxonomyKind::Class))
                    && class_grown.fault() == None::<TaxonomyError>);
                assert(grown_from_root(
                    property_grown,
                    RDF_PROPERTY@,
                    file_edges(all, TaxonomyKind::Property),
                ) && property_grown.fault() == Some(e));
            }
            return Err(e);
        },
    }
    proof {
        assert(grown(class_start, class_grown, file_edges(all, TaxonomyKind::Class)));
        assert(class_grown.same_graph(&class_tree));
        assert(grown(property_start, property_grown, file_edges(all, TaxonomyKind::Property)));
        assert(property_grown.same_graph(&property_tree));
    }
    Ok((class_tree, property_tree))
}

} // verus!
