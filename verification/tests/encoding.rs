use quadstore::binary_encoder::{
    decode_term, encode_term, encode_term_pair, encode_term_quad, encode_term_triple, write_gosp_quad,
    write_gpos_quad, write_gspo_quad, write_osp_quad, write_ospg_quad, write_pos_quad,
    write_posg_quad, write_spo_quad, write_spog_quad, write_term, Cursor, QuadEncoding, TermReader,
};
use quadstore::error::{CorruptionError, StorageError};
use quadstore::model::{BlankNode, GraphName, Literal, NamedNode, Quad, Term, Triple};
use quadstore::numeric_encoder::{
    Duration, EncodedQuad, EncodedTerm, EncodedTriple, StrHash, Timestamp,
};
use quadstore::small_string::{BadSmallStringError, SmallString};
use quadstore::storage::Storage;
use siphasher::sip128::SipHasher24;

fn named(iri: &str) -> Term {
    Term::NamedNode(NamedNode::new_unchecked(iri))
}

const SCALE: i128 = 1_000_000_000_000_000_000;

fn seconds(count: i128, timezone_offset: Option<i16>) -> Timestamp {
    Timestamp { value: count * SCALE, timezone_offset }
}

fn typed(value: &str, datatype: &str) -> Term {
    Term::Literal(Literal::new_typed_literal(value, NamedNode::new_unchecked(datatype)))
}

fn small(text: &str) -> SmallString {
    SmallString::from_str(text).unwrap()
}

fn every_kind_of_term() -> Vec<EncodedTerm> {
    let stamp = Timestamp { value: -17, timezone_offset: Some(60) };
    let local = Timestamp { value: 1_577_840_461_000_000_000_000_000_000, timezone_offset: None };
    vec![
        EncodedTerm::NamedNode { iri_id: StrHash { hash: 1 } },
        EncodedTerm::NumericalBlankNode { id: u128::MAX },
        EncodedTerm::SmallBlankNode(small("bnode")),
        EncodedTerm::BigBlankNode { id_id: StrHash { hash: 2 } },
        EncodedTerm::SmallStringLiteral(small("")),
        EncodedTerm::SmallStringLiteral(small("fifteen bytes!!")),
        EncodedTerm::BigStringLiteral { value_id: StrHash { hash: 3 } },
        EncodedTerm::SmallSmallLangStringLiteral { value: small("foo"), language: small("fr") },
        EncodedTerm::SmallBigLangStringLiteral {
            value: small("foo"),
            language_id: StrHash { hash: 4 },
        },
        EncodedTerm::BigSmallLangStringLiteral {
            value_id: StrHash { hash: 5 },
            language: small("fr"),
        },
        EncodedTerm::BigBigLangStringLiteral {
            value_id: StrHash { hash: 6 },
            language_id: StrHash { hash: 7 },
        },
        EncodedTerm::SmallTypedLiteral { value: small("-foo"), datatype_id: StrHash { hash: 8 } },
        EncodedTerm::BigTypedLiteral {
            value_id: StrHash { hash: 9 },
            datatype_id: StrHash { hash: 10 },
        },
        EncodedTerm::BooleanLiteral(true),
        EncodedTerm::BooleanLiteral(false),
        EncodedTerm::FloatLiteral(1.2f32.to_bits()),
        EncodedTerm::DoubleLiteral((-7.25f64).to_bits()),
        EncodedTerm::IntegerLiteral(i64::MIN),
        EncodedTerm::IntegerLiteral(-1),
        EncodedTerm::DecimalLiteral(i128::MIN),
        EncodedTerm::DateTimeLiteral(stamp),
        EncodedTerm::TimeLiteral(local),
        EncodedTerm::DateLiteral(stamp),
        EncodedTerm::GYearMonthLiteral(local),
        EncodedTerm::GYearLiteral(stamp),
        EncodedTerm::GMonthDayLiteral(local),
        EncodedTerm::GDayLiteral(Timestamp { value: 0, timezone_offset: Some(-840) }),
        EncodedTerm::GMonthLiteral(Timestamp { value: 5, timezone_offset: Some(i16::MIN) }),
        EncodedTerm::DurationLiteral(Duration { months: -14, seconds: 1_000_000_000_000_000_000 }),
        EncodedTerm::YearMonthDurationLiteral(12),
        EncodedTerm::DayTimeDurationLiteral(-1),
        EncodedTerm::Triple(Box::new(EncodedTriple {
            subject: EncodedTerm::NamedNode { iri_id: StrHash { hash: 11 } },
            predicate: EncodedTerm::NamedNode { iri_id: StrHash { hash: 12 } },
            object: EncodedTerm::Triple(Box::new(EncodedTriple {
                subject: EncodedTerm::SmallBlankNode(small("b")),
                predicate: EncodedTerm::NamedNode { iri_id: StrHash { hash: 13 } },
                object: EncodedTerm::BooleanLiteral(true),
            })),
        })),
    ]
}

#[test]
fn test_encoding() {
    let mut storage = Storage::new().unwrap();
    let terms: Vec<Term> = vec![
        named("http://foo.com"),
        named("http://bar.com"),
        named("http://foo.com"),
        Term::BlankNode(BlankNode::new_from_unique_id(0x1234_5678_9abc_def0)),
        Term::BlankNode(BlankNode::new_unchecked("bnode")),
        Term::BlankNode(BlankNode::new_unchecked("foo-bnode-thisisaverylargeblanknode")),
        Term::Literal(Literal::new_simple_literal("literal")),
        Term::BlankNode(BlankNode::new_unchecked("foo-literal-thisisaverylargestringliteral")),
        Term::Literal(Literal::Boolean(true)),
        Term::Literal(Literal::Double(1.2f64.to_bits())),
        Term::Literal(Literal::Integer(1)),
        Term::Literal(Literal::new_simple_literal("foo-string")),
        Term::Literal(Literal::new_language_tagged_literal_unchecked("foo-fr", "fr")),
        Term::Literal(Literal::new_language_tagged_literal_unchecked(
            "foo-fr-literal-thisisaverylargelanguagetaggedstringliteral",
            "fr",
        )),
        Term::Literal(Literal::new_language_tagged_literal_unchecked(
            "foo-big",
            "fr-FR-Latn-x-foo-bar-baz-bat-aaaa-bbbb-cccc",
        )),
        Term::Literal(Literal::new_language_tagged_literal_unchecked(
            "foo-big-literal-thisisaverylargelanguagetaggedstringliteral",
            "fr-FR-Latn-x-foo-bar-baz-bat-aaaa-bbbb-cccc",
        )),
        Term::Literal(Literal::Decimal(-1_320_000_000_000_000_000)),
        Term::Literal(Literal::DateTime(seconds(63_713_437_261, Some(0)))),
        Term::Literal(Literal::Date(seconds(63_713_433_600, None))),
        Term::Literal(Literal::Time(seconds(62_230_208_461, Some(0)))),
        Term::Literal(Literal::GYearMonth(seconds(63_713_433_600, None))),
        Term::Literal(Literal::GYear(seconds(63_713_433_600, None))),
        Term::Literal(Literal::GMonthDay(seconds(62_198_668_800, None))),
        Term::Literal(Literal::GMonth(seconds(62_198_668_800, None))),
        Term::Literal(Literal::GDay(seconds(62_227_612_800, None))),
        Term::Literal(Literal::Duration(Duration { months: 0, seconds: SCALE })),
        Term::Literal(Literal::DayTimeDuration(SCALE)),
        Term::Literal(Literal::YearMonthDuration(12)),
        typed("-foo", "http://foo.com"),
        typed("-foo-thisisaverybigtypedliteralwiththefoodatatype", "http://foo.com"),
        Term::Triple(Box::new(Triple {
            subject: named("http://foo.com"),
            predicate: named("http://bar.com"),
            object: Term::Literal(Literal::Boolean(true)),
        })),
    ];
    for term in terms {
        let encoded = EncodedTerm::from_term(&term);
        let mut writer = storage.transaction();
        writer
            .insert(&Quad::new(
                term.clone(),
                named("http://example.com/p"),
                term.clone(),
                GraphName::DefaultGraph,
            ))
            .unwrap();
        storage.commit(writer);
        assert_eq!(encoded, EncodedTerm::from_term(&term));
        assert_eq!(term, storage.snapshot().decode_term(&encoded).unwrap());

        let mut buffer = Vec::new();
        write_term(&mut buffer, &encoded);
        assert_eq!(encoded, Cursor::new(&buffer).read_term().unwrap());
    }
}

#[test]
fn every_term_reads_back() {
    for term in every_kind_of_term() {
        let bytes = encode_term(&term);
        assert_eq!(decode_term(&bytes).unwrap(), term);
        let mut with_more = bytes.clone();
        with_more.extend_from_slice(&[0xaa, 0xbb]);
        let mut cursor = Cursor::new(&with_more);
        assert_eq!(cursor.read_term().unwrap(), term);
    }
}

#[test]
fn term_widths_follow_the_type_byte() {
    let widths: Vec<usize> = every_kind_of_term().iter().map(|t| encode_term(t).len()).collect();
    assert_eq!(
        widths,
        vec![
            17, 17, 17, 17, 17, 17, 17, 33, 33, 33, 33, 33, 33, 1, 1, 5, 9, 9, 9, 17, 19, 19, 19, 19,
            19, 19, 19, 19, 25, 9, 17,
            1 + 17 + 17 + (1 + 17 + 17 + 1),
        ]
    );
}

#[test]
fn type_bytes_are_the_documented_ones() {
    let tags: Vec<u8> = every_kind_of_term().iter().map(|t| encode_term(t)[0]).collect();
    assert_eq!(
        tags,
        vec![
            1, 8, 9, 10, 16, 16, 17, 20, 21, 22, 23, 24, 25, 28, 29, 30, 31, 32, 32, 33, 34, 35, 36,
            37, 38, 39, 40, 41, 42, 43, 44, 48,
        ]
    );
}

#[test]
fn default_graph_has_no_bytes() {
    assert!(encode_term(&EncodedTerm::DefaultGraph).is_empty());
}

#[test]
fn numbers_are_written_big_endian() {
    assert_eq!(encode_term(&EncodedTerm::IntegerLiteral(1)), vec![32, 0, 0, 0, 0, 0, 0, 0, 1]);
    assert_eq!(
        encode_term(&EncodedTerm::IntegerLiteral(-2)),
        vec![32, 255, 255, 255, 255, 255, 255, 255, 254]
    );
    assert_eq!(
        encode_term(&EncodedTerm::FloatLiteral(0x0102_0304)),
        vec![30, 1, 2, 3, 4]
    );
    assert_eq!(
        encode_term(&EncodedTerm::NamedNode {
            iri_id: StrHash { hash: 0x0102_0304_0506_0708_090a_0b0c_0d0e_0f10 }
        }),
        vec![1, 1, 2, 3, 4, 5, 6, 7, 8, 9, 10, 11, 12, 13, 14, 15, 16]
    );
    let mut expected = vec![42u8];
    expected.extend_from_slice(&(-14i64).to_be_bytes());
    expected.extend_from_slice(&7i128.to_be_bytes());
    assert_eq!(
        encode_term(&EncodedTerm::DurationLiteral(Duration { months: -14, seconds: 7 })),
        expected
    );
}

#[test]
fn timestamps_write_their_offset_last() {
    let with_offset = encode_term(&EncodedTerm::DateLiteral(Timestamp {
        value: 1,
        timezone_offset: Some(-60),
    }));
    let mut expected = vec![36u8];
    expected.extend_from_slice(&1i128.to_be_bytes());
    expected.extend_from_slice(&(-60i16).to_be_bytes());
    assert_eq!(with_offset, expected);
    let without = encode_term(&EncodedTerm::DateLiteral(Timestamp {
        value: 1,
        timezone_offset: None,
    }));
    assert_eq!(&without[17..], &[0xff, 0xff]);
}

#[test]
fn language_comes_before_value() {
    let bytes = encode_term(&EncodedTerm::SmallSmallLangStringLiteral {
        value: small("value"),
        language: small("en"),
    });
    assert_eq!(bytes[0], 20);
    assert_eq!(&bytes[1..3], b"en");
    assert_eq!(bytes[16], 2);
    assert_eq!(&bytes[17..22], b"value");
    assert_eq!(bytes[32], 5);
}

#[test]
fn unknown_type_bytes_are_refused() {
    for tag in [0u8, 2, 7, 11, 15, 18, 19, 26, 27, 45, 47, 49, 50, 51, 56, 63, 64, 127, 128, 255] {
        let mut buffer = vec![tag];
        buffer.extend_from_slice(&[0u8; 40]);
        assert_eq!(
            decode_term(&buffer),
            Err(StorageError::Corruption(CorruptionError::InvalidTypeId)),
            "tag {}",
            tag
        );
    }
}

#[test]
fn short_buffers_are_refused() {
    assert_eq!(decode_term(&[]), Err(StorageError::Corruption(CorruptionError::UnexpectedEnd)));
    for term in every_kind_of_term() {
        let bytes = encode_term(&term);
        for cut in 0..bytes.len() {
            assert_eq!(
                decode_term(&bytes[..cut]),
                Err(StorageError::Corruption(CorruptionError::UnexpectedEnd))
            );
        }
    }
}

#[test]
fn malformed_inline_strings_are_refused() {
    let mut too_long = vec![16u8];
    too_long.extend_from_slice(&[b'a'; 15]);
    too_long.push(16);
    assert_eq!(
        decode_term(&too_long),
        Err(StorageError::Corruption(CorruptionError::BadSmallString))
    );
    let mut not_utf8 = vec![9u8, 0xff, 0xfe];
    not_utf8.extend_from_slice(&[0u8; 13]);
    not_utf8.push(2);
    assert_eq!(
        decode_term(&not_utf8),
        Err(StorageError::Corruption(CorruptionError::BadSmallString))
    );
}

#[test]
fn small_strings_hold_up_to_fifteen_bytes() {
    let s = SmallString::from_str("héllo").unwrap();
    assert_eq!(s.len(), 6);
    assert_eq!(s.as_bytes(), "héllo".as_bytes());
    let bytes = s.to_be_bytes();
    assert_eq!(bytes[15], 6);
    assert_eq!(&bytes[6..15], &[0u8; 9]);
    assert_eq!(SmallString::from_be_bytes(bytes), Ok(s));
    assert!(SmallString::new().is_empty());
    assert_eq!(
        SmallString::from_str("sixteen bytes!!!"),
        Err(BadSmallStringError::TooLong(16))
    );
    let mut bad = [0u8; 16];
    bad[0] = 0xc3;
    bad[15] = 1;
    assert_eq!(SmallString::from_be_bytes(bad), Err(BadSmallStringError::BadUtf8));
    bad[15] = 200;
    assert_eq!(SmallString::from_be_bytes(bad), Err(BadSmallStringError::TooLong(200)));
}

#[test]
fn hashes_are_those_of_siphash() {
    for text in ["", "http://foo.com", "foo-bnode-thisisaverylargeblanknode"] {
        let expected = u128::from(SipHasher24::new().hash(text.as_bytes()));
        assert_eq!(StrHash::new(text).hash, expected);
        assert_eq!(StrHash::of_bytes(text.as_bytes()).hash, expected);
    }
    assert_ne!(StrHash::new("a").hash, StrHash::new("b").hash);
}

fn sample_quad(graph_name: EncodedTerm) -> EncodedQuad {
    EncodedQuad::new(
        EncodedTerm::NamedNode { iri_id: StrHash { hash: 1 } },
        EncodedTerm::NamedNode { iri_id: StrHash { hash: 2 } },
        EncodedTerm::SmallStringLiteral(small("o")),
        graph_name,
    )
}

#[test]
fn keys_decode_to_the_quad_in_every_order() {
    let named_quad = sample_quad(EncodedTerm::BigBlankNode { id_id: StrHash { hash: 4 } });
    let writers: Vec<(QuadEncoding, fn(&mut Vec<u8>, &EncodedQuad))> = vec![
        (QuadEncoding::Spog, write_spog_quad),
        (QuadEncoding::Posg, write_posg_quad),
        (QuadEncoding::Ospg, write_ospg_quad),
        (QuadEncoding::Gspo, write_gspo_quad),
        (QuadEncoding::Gpos, write_gpos_quad),
        (QuadEncoding::Gosp, write_gosp_quad),
    ];
    for (encoding, write) in writers {
        let mut key = Vec::new();
        write(&mut key, &named_quad);
        assert_eq!(key.len(), 4 * 17);
        assert_eq!(encoding.decode(&key).unwrap(), named_quad);
    }
    let default_quad = sample_quad(EncodedTerm::DefaultGraph);
    let writers: Vec<(QuadEncoding, fn(&mut Vec<u8>, &EncodedQuad))> = vec![
        (QuadEncoding::Dspo, write_spo_quad),
        (QuadEncoding::Dpos, write_pos_quad),
        (QuadEncoding::Dosp, write_osp_quad),
    ];
    for (encoding, write) in writers {
        let mut key = Vec::new();
        write(&mut key, &default_quad);
        assert_eq!(key.len(), 3 * 17);
        assert_eq!(encoding.decode(&key).unwrap(), default_quad);
    }
}

#[test]
fn keys_are_the_terms_in_the_order_of_the_index() {
    let q = sample_quad(EncodedTerm::NamedNode { iri_id: StrHash { hash: 9 } });
    let s = encode_term(&q.subject);
    let p = encode_term(&q.predicate);
    let o = encode_term(&q.object);
    let g = encode_term(&q.graph_name);
    let mut key = Vec::new();
    write_posg_quad(&mut key, &q);
    assert_eq!(key, [p.clone(), o.clone(), s.clone(), g.clone()].concat());
    let mut key = Vec::new();
    write_gosp_quad(&mut key, &q);
    assert_eq!(key, [g.clone(), o.clone(), s.clone(), p.clone()].concat());
    let mut key = Vec::new();
    write_osp_quad(&mut key, &q);
    assert_eq!(key, [o.clone(), s.clone(), p.clone()].concat());
    assert_eq!(encode_term_pair(&q.subject, &q.predicate), [s.clone(), p.clone()].concat());
    assert_eq!(
        encode_term_triple(&q.subject, &q.predicate, &q.object),
        [s.clone(), p.clone(), o.clone()].concat()
    );
    assert_eq!(
        encode_term_quad(&q.graph_name, &q.subject, &q.predicate, &q.object),
        [g, s, p, o].concat()
    );
}

#[test]
fn a_short_key_does_not_decode() {
    let q = sample_quad(EncodedTerm::NamedNode { iri_id: StrHash { hash: 9 } });
    let mut key = Vec::new();
    write_spo_quad(&mut key, &q);
    assert_eq!(
        QuadEncoding::Spog.decode(&key),
        Err(StorageError::Corruption(CorruptionError::UnexpectedEnd))
    );
    assert_eq!(QuadEncoding::Dspo.decode(&key).unwrap().graph_name, EncodedTerm::DefaultGraph);
}

#[test]
fn a_cursor_reads_terms_one_after_the_other() {
    let q = sample_quad(EncodedTerm::NamedNode { iri_id: StrHash { hash: 9 } });
    let mut key = Vec::new();
    write_gpos_quad(&mut key, &q);
    let mut cursor = Cursor::new(&key);
    assert_eq!(cursor.read_term().unwrap(), q.graph_name);
    assert_eq!(cursor.read_term().unwrap(), q.predicate);
    assert_eq!(cursor.read_term().unwrap(), q.object);
    assert_eq!(cursor.read_term().unwrap(), q.subject);
    assert_eq!(
        cursor.read_term(),
        Err(StorageError::Corruption(CorruptionError::UnexpectedEnd))
    );
    assert_eq!(Cursor::new(&key).read_gpos_quad().unwrap(), q);
}

#[test]
fn model_terms_are_encoded_by_length() {
    assert_eq!(
        EncodedTerm::from_term(&Term::BlankNode(BlankNode::new_unchecked("fifteen bytes!!"))),
        EncodedTerm::SmallBlankNode(small("fifteen bytes!!"))
    );
    assert_eq!(
        EncodedTerm::from_term(&Term::BlankNode(BlankNode::new_unchecked("sixteen bytes!!!"))),
        EncodedTerm::BigBlankNode { id_id: StrHash::new("sixteen bytes!!!") }
    );
    assert_eq!(
        EncodedTerm::from_term(&typed("1", "http://d")),
        EncodedTerm::SmallTypedLiteral { value: small("1"), datatype_id: StrHash::new("http://d") }
    );
    assert_eq!(
        EncodedTerm::from_graph_name(&GraphName::DefaultGraph),
        EncodedTerm::DefaultGraph
    );
    assert!(EncodedTerm::DefaultGraph.is_default_graph());
    assert!(EncodedTerm::from_term(&named("http://a")).is_named_node());
    assert!(EncodedTerm::NumericalBlankNode { id: 1 }.is_blank_node());
    assert!(!EncodedTerm::BooleanLiteral(true).is_triple());
}
