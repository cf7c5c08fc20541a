//! The binary form of encoded terms and quads.
//!
//! A term is one type byte followed by a payload whose width the type byte
//! fixes; a quoted triple is its type byte followed by its three terms. A
//! key is the concatenation of the terms of a quad in the order of its
//! index.

use vstd::prelude::*;
use crate::endian::lemma_concat_split;
use crate::endian::read_array_16;
use crate::endian::write_slice;
use crate::endian::be_bytes;
use crate::endian::be_value;
use crate::endian::lemma_be_bytes_of_value;
use crate::endian::lemma_be_value_bound;
use crate::endian::lemma_pow256_values;
use crate::endian::i128_bytes;
use crate::endian::i128_of;
use crate::endian::i16_bytes;
use crate::endian::i16_of;
use crate::endian::i64_bytes;
use crate::endian::i64_of;
use crate::endian::u128_bytes;
use crate::endian::u128_of;
use crate::endian::u32_bytes;
use crate::endian::u32_of;
use crate::endian::u64_bytes;
use crate::endian::u64_of;
use crate::endian::lemma_i128_round_trip;
use crate::endian::lemma_i16_round_trip;
use crate::endian::lemma_i64_round_trip;
use crate::endian::lemma_u128_round_trip;
use crate::endian::lemma_u32_round_trip;
use crate::endian::lemma_u64_round_trip;
use crate::endian::read_i128;
use crate::endian::read_i16;
use crate::endian::read_i64;
use crate::endian::read_u128;
use crate::endian::read_u32;
use crate::endian::read_u64;
use crate::endian::write_i128;
use crate::endian::write_i16;
use crate::endian::write_i64;
use crate::endian::write_u128;
use crate::endian::write_u32;
use crate::endian::write_u64;
use crate::error::CorruptionError;
use crate::error::StorageError;
use crate::numeric_encoder::Duration;
use crate::numeric_encoder::EncodedQuad;
use crate::numeric_encoder::EncodedTerm;
use crate::numeric_encoder::EncodedTriple;
use crate::numeric_encoder::StrHash;
use crate::numeric_encoder::Timestamp;
use crate::small_string::is_small_string;
use crate::small_string::lemma_small_string_exists;
use crate::small_string::lemma_small_string_of;
use crate::small_string::small_string_of;
use crate::small_string::SmallString;

verus! {

/// The version of the layout that this library writes.
pub const LATEST_STORAGE_VERSION: u64 = 1;

/// The largest width of a term that is not a quoted triple.
pub const WRITTEN_TERM_MAX_SIZE: usize = 33;

/// The largest width of an interval annotation with a single interval.
pub const INTERVAL_ENCODING_MAX_SIZE: usize = 19;

/// The type byte of a named node.
pub const TYPE_NAMED_NODE_ID: u8 = 1;

/// The type byte of a blank node that has a number.
pub const TYPE_NUMERICAL_BLANK_NODE_ID: u8 = 8;

/// The type byte of a blank node with a short name.
pub const TYPE_SMALL_BLANK_NODE_ID: u8 = 9;

/// The type byte of a blank node with a long name.
pub const TYPE_BIG_BLANK_NODE_ID: u8 = 10;

/// The type byte of a short simple literal.
pub const TYPE_SMALL_STRING_LITERAL: u8 = 16;

/// The type byte of a long simple literal.
pub const TYPE_BIG_STRING_LITERAL: u8 = 17;

/// The type byte of a short literal with a short language tag.
pub const TYPE_SMALL_SMALL_LANG_STRING_LITERAL: u8 = 20;

/// The type byte of a short literal with a long language tag.
pub const TYPE_SMALL_BIG_LANG_STRING_LITERAL: u8 = 21;

/// The type byte of a long literal with a short language tag.
pub const TYPE_BIG_SMALL_LANG_STRING_LITERAL: u8 = 22;

/// The type byte of a long literal with a long language tag.
pub const TYPE_BIG_BIG_LANG_STRING_LITERAL: u8 = 23;

/// The type byte of a short literal with a datatype.
pub const TYPE_SMALL_TYPED_LITERAL: u8 = 24;

/// The type byte of a long literal with a datatype.
pub const TYPE_BIG_TYPED_LITERAL: u8 = 25;

/// The type byte of the boolean `true`.
pub const TYPE_BOOLEAN_LITERAL_TRUE: u8 = 28;

/// The type byte of the boolean `false`.
pub const TYPE_BOOLEAN_LITERAL_FALSE: u8 = 29;

/// The type byte of a single-precision number.
pub const TYPE_FLOAT_LITERAL: u8 = 30;

/// The type byte of a double-precision number.
pub const TYPE_DOUBLE_LITERAL: u8 = 31;

/// The type byte of an integer.
pub const TYPE_INTEGER_LITERAL: u8 = 32;

/// The type byte of a decimal.
pub const TYPE_DECIMAL_LITERAL: u8 = 33;

/// The type byte of a date with a time.
pub const TYPE_DATE_TIME_LITERAL: u8 = 34;

/// The type byte of a time.
pub const TYPE_TIME_LITERAL: u8 = 35;

/// The type byte of a date.
pub const TYPE_DATE_LITERAL: u8 = 36;

/// The type byte of a year with a month.
pub const TYPE_G_YEAR_MONTH_LITERAL: u8 = 37;

/// The type byte of a year.
pub const TYPE_G_YEAR_LITERAL: u8 = 38;

/// The type byte of a month with a day.
pub const TYPE_G_MONTH_DAY_LITERAL: u8 = 39;

/// The type byte of a day.
pub const TYPE_G_DAY_LITERAL: u8 = 40;

/// The type byte of a month.
pub const TYPE_G_MONTH_LITERAL: u8 = 41;

/// The type byte of a duration.
pub const TYPE_DURATION_LITERAL: u8 = 42;

/// The type byte of a duration in months.
pub const TYPE_YEAR_MONTH_DURATION_LITERAL: u8 = 43;

/// The type byte of a duration in seconds.
pub const TYPE_DAY_TIME_DURATION_LITERAL: u8 = 44;

/// The type byte of a quoted triple.
pub const TYPE_TRIPLE: u8 = 48;

/// The tag of an interval annotation from the taxonomy of classes.
pub const TYPE_CLASS: u8 = 50;

/// The tag of an interval annotation from the taxonomy of properties.
pub const TYPE_PROPERTY: u8 = 51;

/// The two bytes that stand for an absent time-zone offset.
pub open spec fn no_offset_bytes() -> Seq<u8> {
    seq![0xffu8, 0xffu8]
}

/// The eighteen bytes of a timestamp: its value, then its offset.
pub open spec fn timestamp_bytes(t: Timestamp) -> Seq<u8> {
    i128_bytes(t.value) + match t.timezone_offset {
        Some(offset) => i16_bytes(offset),
        None => no_offset_bytes(),
    }
}

/// The timestamp that eighteen bytes hold.
pub open spec fn timestamp_of(p: Seq<u8>) -> Timestamp {
    Timestamp {
        value: i128_of(p.subrange(0, 16)),
        timezone_offset: if p.subrange(16, 18) == no_offset_bytes() {
            None
        } else {
            Some(i16_of(p.subrange(16, 18)))
        },
    }
}

/// The twenty-four bytes of a duration: its months, then its seconds.
pub open spec fn duration_bytes(d: Duration) -> Seq<u8> {
    i64_bytes(d.months) + i128_bytes(d.seconds)
}

/// The duration that twenty-four bytes hold.
pub open spec fn duration_of(p: Seq<u8>) -> Duration {
    Duration { months: i64_of(p.subrange(0, 8)), seconds: i128_of(p.subrange(8, 24)) }
}

/// The binary form of a term. The default graph has the empty form.
#[verifier::opaque]
pub open spec fn term_bytes(t: EncodedTerm) -> Seq<u8>
    decreases t,
{
    match t {
        EncodedTerm::DefaultGraph => Seq::empty(),
        EncodedTerm::NamedNode { iri_id } => seq![TYPE_NAMED_NODE_ID] + u128_bytes(iri_id.hash),
        EncodedTerm::NumericalBlankNode { id } => seq![TYPE_NUMERICAL_BLANK_NODE_ID] + u128_bytes(
            id,
        ),
        EncodedTerm::SmallBlankNode(id) => seq![TYPE_SMALL_BLANK_NODE_ID] + id.bytes(),
        EncodedTerm::BigBlankNode { id_id } => seq![TYPE_BIG_BLANK_NODE_ID] + u128_bytes(
            id_id.hash,
        ),
        EncodedTerm::SmallStringLiteral(value) => seq![TYPE_SMALL_STRING_LITERAL] + value.bytes(),
        EncodedTerm::BigStringLiteral { value_id } => seq![TYPE_BIG_STRING_LITERAL] + u128_bytes(
            value_id.hash,
        ),
        EncodedTerm::SmallSmallLangStringLiteral { value, language } => {
            seq![TYPE_SMALL_SMALL_LANG_STRING_LITERAL] + (language.bytes() + value.bytes())
        },
        EncodedTerm::SmallBigLangStringLiteral { value, language_id } => {
            seq![TYPE_SMALL_BIG_LANG_STRING_LITERAL] + (u128_bytes(language_id.hash)
                + value.bytes())
        },
        EncodedTerm::BigSmallLangStringLiteral { value_id, language } => {
            seq![TYPE_BIG_SMALL_LANG_STRING_LITERAL] + (language.bytes() + u128_bytes(
                value_id.hash,
            ))
        },
        EncodedTerm::BigBigLangStringLiteral { value_id, language_id } => {
            seq![TYPE_BIG_BIG_LANG_STRING_LITERAL] + (u128_bytes(language_id.hash) + u128_bytes(
                value_id.hash,
            ))
        },
        EncodedTerm::SmallTypedLiteral { value, datatype_id } => {
            seq![TYPE_SMALL_TYPED_LITERAL] + (u128_bytes(datatype_id.hash) + value.bytes())
        },
        EncodedTerm::BigTypedLiteral { value_id, datatype_id } => {
            seq![TYPE_BIG_TYPED_LITERAL] + (u128_bytes(datatype_id.hash) + u128_bytes(
                value_id.hash,
            ))
        },
        EncodedTerm::BooleanLiteral(b) => if b {
            seq![TYPE_BOOLEAN_LITERAL_TRUE]
        } else {
            seq![TYPE_BOOLEAN_LITERAL_FALSE]
        },
        EncodedTerm::FloatLiteral(bits) => seq![TYPE_FLOAT_LITERAL] + u32_bytes(bits),
        EncodedTerm::DoubleLiteral(bits) => seq![TYPE_DOUBLE_LITERAL] + u64_bytes(bits),
        EncodedTerm::IntegerLiteral(v) => seq![TYPE_INTEGER_LITERAL] + i64_bytes(v),
        EncodedTerm::DecimalLiteral(v) => seq![TYPE_DECIMAL_LITERAL] + i128_bytes(v),
        EncodedTerm::DateTimeLiteral(v) => seq![TYPE_DATE_TIME_LITERAL] + timestamp_bytes(v),
        EncodedTerm::TimeLiteral(v) => seq![TYPE_TIME_LITERAL] + timestamp_bytes(v),
        EncodedTerm::DateLiteral(v) => seq![TYPE_DATE_LITERAL] + timestamp_bytes(v),
        EncodedTerm::GYearMonthLiteral(v) => seq![TYPE_G_YEAR_MONTH_LITERAL] + timestamp_bytes(v),
        EncodedTerm::GYearLiteral(v) => seq![TYPE_G_YEAR_LITERAL] + timestamp_bytes(v),
        EncodedTerm::GMonthDayLiteral(v) => seq![TYPE_G_MONTH_DAY_LITERAL] + timestamp_bytes(v),
        EncodedTerm::GDayLiteral(v) => seq![TYPE_G_DAY_LITERAL] + timestamp_bytes(v),
        EncodedTerm::GMonthLiteral(v) => seq![TYPE_G_MONTH_LITERAL] + timestamp_bytes(v),
        EncodedTerm::DurationLiteral(v) => seq![TYPE_DURATION_LITERAL] + duration_bytes(v),
        EncodedTerm::YearMonthDurationLiteral(v) => seq![TYPE_YEAR_MONTH_DURATION_LITERAL]
            + i64_bytes(v),
        EncodedTerm::DayTimeDurationLiteral(v) => seq![TYPE_DAY_TIME_DURATION_LITERAL]
            + i128_bytes(v),
        EncodedTerm::Triple(t) => seq![TYPE_TRIPLE] + (term_bytes(t.subject) + (term_bytes(
            t.predicate,
        ) + term_bytes(t.object))),
    }
}

/// The width of the payload that follows a type byte, for the type bytes
/// of the terms that are not quoted triples.
pub open spec fn payload_width(tag: u8) -> Option<nat> {
    if tag == 1 || tag == 8 || tag == 9 || tag == 10 || tag == 16 || tag == 17 || tag == 33 || tag
        == 44 {
        Some(16)
    } else if 20 <= tag <= 25 {
        Some(32)
    } else if tag == 28 || tag == 29 {
        Some(0)
    } else if tag == 30 {
        Some(4)
    } else if tag == 31 || tag == 32 || tag == 43 {
        Some(8)
    } else if 34 <= tag <= 41 {
        Some(18)
    } else if tag == 42 {
        Some(24)
    } else {
        None
    }
}

/// The term that a type byte and its payload stand for.
#[verifier::opaque]
pub open spec fn decode_payload(tag: u8, p: Seq<u8>) -> Result<EncodedTerm, CorruptionError>
    recommends
        payload_width(tag) == Some(p.len()),
{
    let a = p.subrange(0, 16);
    let b = p.subrange(16, 32);
    if tag == 1 {
        Ok(EncodedTerm::NamedNode { iri_id: StrHash { hash: u128_of(p) } })
    } else if tag == 8 {
        Ok(EncodedTerm::NumericalBlankNode { id: u128_of(p) })
    } else if tag == 9 {
        if is_small_string(p) {
            Ok(EncodedTerm::SmallBlankNode(small_string_of(p)))
        } else {
            Err(CorruptionError::BadSmallString)
        }
    } else if tag == 10 {
        Ok(EncodedTerm::BigBlankNode { id_id: StrHash { hash: u128_of(p) } })
    } else if tag == 16 {
        if is_small_string(p) {
            Ok(EncodedTerm::SmallStringLiteral(small_string_of(p)))
        } else {
            Err(CorruptionError::BadSmallString)
        }
    } else if tag == 17 {
        Ok(EncodedTerm::BigStringLiteral { value_id: StrHash { hash: u128_of(p) } })
    } else if tag == 20 {
        if is_small_string(a) && is_small_string(b) {
            Ok(
                EncodedTerm::SmallSmallLangStringLiteral {
                    value: small_string_of(b),
                    language: small_string_of(a),
                },
            )
        } else {
            Err(CorruptionError::BadSmallString)
        }
    } else if tag == 21 {
        if is_small_string(b) {
            Ok(
                EncodedTerm::SmallBigLangStringLiteral {
                    value: small_string_of(b),
                    language_id: StrHash { hash: u128_of(a) },
                },
            )
        } else {
            Err(CorruptionError::BadSmallString)
        }
    } else if tag == 22 {
        if is_small_string(a) {
            Ok(
                EncodedTerm::BigSmallLangStringLiteral {
                    value_id: StrHash { hash: u128_of(b) },
                    language: small_string_of(a),
                },
            )
        } else {
            Err(CorruptionError::BadSmallString)
        }
    } else if tag == 23 {
        Ok(
            EncodedTerm::BigBigLangStringLiteral {
                value_id: StrHash { hash: u128_of(b) },
                language_id: StrHash { hash: u128_of(a) },
            },
        )
    } else if tag == 24 {
        if is_small_string(b) {
            Ok(
                EncodedTerm::SmallTypedLiteral {
                    value: small_string_of(b),
                    datatype_id: StrHash { hash: u128_of(a) },
                },
            )
        } else {
            Err(CorruptionError::BadSmallString)
        }
    } else if tag == 25 {
        Ok(
            EncodedTerm::BigTypedLiteral {
                value_id: StrHash { hash: u128_of(b) },
                datatype_id: StrHash { hash: u128_of(a) },
            },
        )
    } else if tag == 28 {
        Ok(EncodedTerm::BooleanLiteral(true))
    } else if tag == 29 {
        Ok(EncodedTerm::BooleanLiteral(false))
    } else if tag == 30 {
        Ok(EncodedTerm::FloatLiteral(u32_of(p)))
    } else if tag == 31 {
        Ok(EncodedTerm::DoubleLiteral(u64_of(p)))
    } else if tag == 32 {
        Ok(EncodedTerm::IntegerLiteral(i64_of(p)))
    } else if tag == 33 {
        Ok(EncodedTerm::DecimalLiteral(i128_of(p)))
    } else if tag == 34 {
        Ok(EncodedTerm::DateTimeLiteral(timestamp_of(p)))
    } else if tag == 35 {
        Ok(EncodedTerm::TimeLiteral(timestamp_of(p)))
    } else if tag == 36 {
        Ok(EncodedTerm::DateLiteral(timestamp_of(p)))
    } else if tag == 37 {
        Ok(EncodedTerm::GYearMonthLiteral(timestamp_of(p)))
    } else if tag == 38 {
        Ok(EncodedTerm::GYearLiteral(timestamp_of(p)))
    } else if tag == 39 {
        Ok(EncodedTerm::GMonthDayLiteral(timestamp_of(p)))
    } else if tag == 40 {
        Ok(EncodedTerm::GDayLiteral(timestamp_of(p)))
    } else if tag == 41 {
        Ok(EncodedTerm::GMonthLiteral(timestamp_of(p)))
    } else if tag == 42 {
        Ok(EncodedTerm::DurationLiteral(duration_of(p)))
    } else if tag == 43 {
        Ok(EncodedTerm::YearMonthDurationLiteral(i64_of(p)))
    } else if tag == 44 {
        Ok(EncodedTerm::DayTimeDurationLiteral(i128_of(p)))
    } else {
        Err(CorruptionError::InvalidTypeId)
    }
}

/// What reading one term from the front of `s` gives: the term and the
/// number of bytes that it takes, or the reason why no term is there.
#[verifier::opaque]
pub open spec fn parse_term(s: Seq<u8>) -> Result<(EncodedTerm, nat), CorruptionError>
    decreases s.len(),
{
    if s.len() == 0 {
        Err(CorruptionError::UnexpectedEnd)
    } else if s[0] == TYPE_TRIPLE {
        match parse_term(s.skip(1)) {
            Err(e) => Err(e),
            Ok((subject, n1)) => if 1 + n1 > s.len() {
                Err(CorruptionError::UnexpectedEnd)
            } else {
                match parse_term(s.skip(1 + n1 as int)) {
                    Err(e) => Err(e),
                    Ok((predicate, n2)) => if 1 + n1 + n2 > s.len() {
                        Err(CorruptionError::UnexpectedEnd)
                    } else {
                        match parse_term(s.skip(1 + n1 as int + n2 as int)) {
                            Err(e) => Err(e),
                            Ok((object, n3)) => Ok(
                                (
                                    EncodedTerm::Triple(
                                        Box::new(EncodedTriple { subject, predicate, object }),
                                    ),
                                    (1 + n1 + n2 + n3) as nat,
                                ),
                            ),
                        }
                    },
                }
            },
        }
    } else {
        match payload_width(s[0]) {
            None => Err(CorruptionError::InvalidTypeId),
            Some(w) => if s.len() < 1 + w {
                Err(CorruptionError::UnexpectedEnd)
            } else {
                match decode_payload(s[0], s.subrange(1, 1 + w as int)) {
                    Ok(t) => Ok((t, (1 + w) as nat)),
                    Err(e) => Err(e),
                }
            },
        }
    }
}

/// A term that is read takes at least one byte and no more than there are.
pub proof fn lemma_parse_term_consumes(s: Seq<u8>)
    ensures
        parse_term(s) matches Ok((t, n)) ==> 1 <= n <= s.len(),
    decreases s.len(),
{
    reveal(parse_term);
    if s.len() > 0 && s[0] == TYPE_TRIPLE {
        lemma_parse_term_consumes(s.skip(1));
        if let Ok((subject, n1)) = parse_term(s.skip(1)) {
            if 1 + n1 <= s.len() {
                lemma_parse_term_consumes(s.skip(1 + n1 as int));
                if let Ok((predicate, n2)) = parse_term(s.skip(1 + n1 as int)) {
                    if 1 + n1 + n2 <= s.len() {
                        lemma_parse_term_consumes(s.skip(1 + n1 as int + n2 as int));
                    }
                }
            }
        }
    }
}

/// Reading a type byte and its payload gives what the payload stands for.
proof fn lemma_parse_fixed(tag: u8, payload: Seq<u8>, rest: Seq<u8>)
    requires
        payload_width(tag) == Some(payload.len()),
    ensures
        parse_term((seq![tag] + payload) + rest) == match decode_payload(tag, payload) {
            Ok(t) => Ok::<(EncodedTerm, nat), CorruptionError>((t, (1 + payload.len()) as nat)),
            Err(e) => Err(e),
        },
{
    reveal(parse_term);
    let s = (seq![tag] + payload) + rest;
    assert(s[0] == tag);
    assert(s.subrange(1, 1 + payload.len() as int) =~= payload);
}

/// The two bytes of an offset are those of an absent offset only for the
/// offset `-1`.
proof fn lemma_offset_bytes(offset: i16)
    requires
        offset != -1i16,
    ensures
        i16_bytes(offset) != no_offset_bytes(),
{
    lemma_i16_round_trip(offset);
    if i16_bytes(offset) == no_offset_bytes() {
        let s = no_offset_bytes();
        assert(s.drop_last() =~= seq![0xffu8]);
        assert(s.drop_last().drop_last() =~= Seq::<u8>::empty());
        reveal_with_fuel(be_value, 3);
        assert(be_value(s) == 65535);
        assert(i16_of(s) == offset);
        assert((65535u16 as u16) as i16 == -1i16) by (bit_vector);
    }
}

proof fn lemma_timestamp_round_trip(t: Timestamp)
    requires
        t.wf(),
    ensures
        timestamp_bytes(t).len() == 18,
        timestamp_of(timestamp_bytes(t)) == t,
{
    lemma_i128_round_trip(t.value);
    let a = i128_bytes(t.value);
    match t.timezone_offset {
        Some(offset) => {
            lemma_i16_round_trip(offset);
            lemma_offset_bytes(offset);
            lemma_concat_split(a, i16_bytes(offset));
        },
        None => {
            lemma_concat_split(a, no_offset_bytes());
        },
    }
}

proof fn lemma_duration_round_trip(d: Duration)
    ensures
        duration_bytes(d).len() == 24,
        duration_of(duration_bytes(d)) == d,
{
    lemma_i64_round_trip(d.months);
    lemma_i128_round_trip(d.seconds);
    lemma_concat_split(i64_bytes(d.months), i128_bytes(d.seconds));
}

/// The payload of a term with two sixteen-byte fields splits into them.
proof fn lemma_pair_payload(a: Seq<u8>, b: Seq<u8>)
    requires
        a.len() == 16,
        b.len() == 16,
    ensures
        (a + b).len() == 32,
        (a + b).subrange(0, 16) == a,
        (a + b).subrange(16, 32) == b,
{
    lemma_concat_split(a, b);
}

/// What [`lemma_parse_term_bytes`] states of one term.
pub open spec fn reads_back(t: EncodedTerm, rest: Seq<u8>) -> bool {
    &&& parse_term(term_bytes(t) + rest) == Ok::<(EncodedTerm, nat), CorruptionError>(
        (t, term_bytes(t).len()),
    )
    &&& term_bytes(t).len() >= 1
}

proof fn lemma_reads_back_hashes(t: EncodedTerm, rest: Seq<u8>)
    requires
        t is NamedNode || t is NumericalBlankNode || t is BigBlankNode || t is BigStringLiteral,
    ensures
        reads_back(t, rest),
{
    reveal(term_bytes);
    reveal(decode_payload);
    match t {
        EncodedTerm::NamedNode { iri_id } => {
            lemma_u128_round_trip(iri_id.hash);
            lemma_parse_fixed(TYPE_NAMED_NODE_ID, u128_bytes(iri_id.hash), rest);
        },
        EncodedTerm::NumericalBlankNode { id } => {
            lemma_u128_round_trip(id);
            lemma_parse_fixed(TYPE_NUMERICAL_BLANK_NODE_ID, u128_bytes(id), rest);
        },
        EncodedTerm::BigBlankNode { id_id } => {
            lemma_u128_round_trip(id_id.hash);
            lemma_parse_fixed(TYPE_BIG_BLANK_NODE_ID, u128_bytes(id_id.hash), rest);
        },
        EncodedTerm::BigStringLiteral { value_id } => {
            lemma_u128_round_trip(value_id.hash);
            lemma_parse_fixed(TYPE_BIG_STRING_LITERAL, u128_bytes(value_id.hash), rest);
        },
        _ => {},
    }
}

proof fn lemma_reads_back_small(t: EncodedTerm, rest: Seq<u8>)
    requires
        t is SmallBlankNode || t is SmallStringLiteral,
        t.wf(),
    ensures
        reads_back(t, rest),
{
    reveal(term_bytes);
    reveal(decode_payload);
    match t {
        EncodedTerm::SmallBlankNode(id) => {
            lemma_small_string_of(id);
            lemma_parse_fixed(TYPE_SMALL_BLANK_NODE_ID, id.bytes(), rest);
        },
        EncodedTerm::SmallStringLiteral(value) => {
            lemma_small_string_of(value);
            lemma_parse_fixed(TYPE_SMALL_STRING_LITERAL, value.bytes(), rest);
        },
        _ => {},
    }
}

proof fn lemma_reads_back_lang(t: EncodedTerm, rest: Seq<u8>)
    requires
        t is SmallSmallLangStringLiteral || t is SmallBigLangStringLiteral || t
            is BigSmallLangStringLiteral || t is BigBigLangStringLiteral,
        t.wf(),
    ensures
        reads_back(t, rest),
{
    reveal(term_bytes);
    reveal(decode_payload);
    match t {
        EncodedTerm::SmallSmallLangStringLiteral { value, language } => {
            lemma_small_string_of(value);
            lemma_small_string_of(language);
            lemma_pair_payload(language.bytes(), value.bytes());
            lemma_parse_fixed(
                TYPE_SMALL_SMALL_LANG_STRING_LITERAL,
                language.bytes() + value.bytes(),
                rest,
            );
        },
        EncodedTerm::SmallBigLangStringLiteral { value, language_id } => {
            lemma_small_string_of(value);
            lemma_u128_round_trip(language_id.hash);
            lemma_pair_payload(u128_bytes(language_id.hash), value.bytes());
            lemma_parse_fixed(
                TYPE_SMALL_BIG_LANG_STRING_LITERAL,
                u128_bytes(language_id.hash) + value.bytes(),
                rest,
            );
        },
        EncodedTerm::BigSmallLangStringLiteral { value_id, language } => {
            lemma_small_string_of(language);
            lemma_u128_round_trip(value_id.hash);
            lemma_pair_payload(language.bytes(), u128_bytes(value_id.hash));
            lemma_parse_fixed(
                TYPE_BIG_SMALL_LANG_STRING_LITERAL,
                language.bytes() + u128_bytes(value_id.hash),
                rest,
            );
        },
        EncodedTerm::BigBigLangStringLiteral { value_id, language_id } => {
            lemma_u128_round_trip(value_id.hash);
            lemma_u128_round_trip(language_id.hash);
            lemma_pair_payload(u128_bytes(language_id.hash), u128_bytes(value_id.hash));
            lemma_parse_fixed(
                TYPE_BIG_BIG_LANG_STRING_LITERAL,
                u128_bytes(language_id.hash) + u128_bytes(value_id.hash),
                rest,
            );
        },
        _ => {},
    }
}

proof fn lemma_reads_back_typed(t: EncodedTerm, rest: Seq<u8>)
    requires
        t is SmallTypedLiteral || t is BigTypedLiteral || t is BooleanLiteral,
        t.wf(),
    ensures
        reads_back(t, rest),
{
    reveal(term_bytes);
    reveal(decode_payload);
    match t {
        EncodedTerm::SmallTypedLiteral { value, datatype_id } => {
            lemma_small_string_of(value);
            lemma_u128_round_trip(datatype_id.hash);
            lemma_pair_payload(u128_bytes(datatype_id.hash), value.bytes());
            lemma_parse_fixed(
                TYPE_SMALL_TYPED_LITERAL,
                u128_bytes(datatype_id.hash) + value.bytes(),
                rest,
            );
        },
        EncodedTerm::BigTypedLiteral { value_id, datatype_id } => {
            lemma_u128_round_trip(value_id.hash);
            lemma_u128_round_trip(datatype_id.hash);
            lemma_pair_payload(u128_bytes(datatype_id.hash), u128_bytes(value_id.hash));
            lemma_parse_fixed(
                TYPE_BIG_TYPED_LITERAL,
                u128_bytes(datatype_id.hash) + u128_bytes(value_id.hash),
                rest,
            );
        },
        EncodedTerm::BooleanLiteral(b) => {
            if b {
                lemma_parse_fixed(TYPE_BOOLEAN_LITERAL_TRUE, Seq::empty(), rest);
                assert(seq![TYPE_BOOLEAN_LITERAL_TRUE] + Seq::<u8>::empty()
                    =~= seq![TYPE_BOOLEAN_LITERAL_TRUE]);
            } else {
                lemma_parse_fixed(TYPE_BOOLEAN_LITERAL_FALSE, Seq::empty(), rest);
                assert(seq![TYPE_BOOLEAN_LITERAL_FALSE] + Seq::<u8>::empty()
                    =~= seq![TYPE_BOOLEAN_LITERAL_FALSE]);
            }
        },
        _ => {},
    }
}

proof fn lemma_reads_back_numbers(t: EncodedTerm, rest: Seq<u8>)
    requires
        t is FloatLiteral || t is DoubleLiteral || t is IntegerLiteral || t is DecimalLiteral || t
            is DurationLiteral || t is YearMonthDurationLiteral || t is DayTimeDurationLiteral,
    ensures
        reads_back(t, rest),
{
    reveal(term_bytes);
    reveal(decode_payload);
    match t {
        EncodedTerm::FloatLiteral(bits) => {
            lemma_u32_round_trip(bits);
            lemma_parse_fixed(TYPE_FLOAT_LITERAL, u32_bytes(bits), rest);
        },
        EncodedTerm::DoubleLiteral(bits) => {
            lemma_u64_round_trip(bits);
            lemma_parse_fixed(TYPE_DOUBLE_LITERAL, u64_bytes(bits), rest);
        },
        EncodedTerm::IntegerLiteral(v) => {
            lemma_i64_round_trip(v);
            lemma_parse_fixed(TYPE_INTEGER_LITERAL, i64_bytes(v), rest);
        },
        EncodedTerm::DecimalLiteral(v) => {
            lemma_i128_round_trip(v);
            lemma_parse_fixed(TYPE_DECIMAL_LITERAL, i128_bytes(v), rest);
        },
        EncodedTerm::DurationLiteral(v) => {
            lemma_duration_round_trip(v);
            lemma_parse_fixed(TYPE_DURATION_LITERAL, duration_bytes(v), rest);
        },
        EncodedTerm::YearMonthDurationLiteral(v) => {
            lemma_i64_round_trip(v);
            lemma_parse_fixed(TYPE_YEAR_MONTH_DURATION_LITERAL, i64_bytes(v), rest);
        },
        EncodedTerm::DayTimeDurationLiteral(v) => {
            lemma_i128_round_trip(v);
            lemma_parse_fixed(TYPE_DAY_TIME_DURATION_LITERAL, i128_bytes(v), rest);
        },
        _ => {},
    }
}

proof fn lemma_reads_back_dates(t: EncodedTerm, rest: Seq<u8>)
    requires
        t is DateTimeLiteral || t is TimeLiteral || t is DateLiteral || t is GYearMonthLiteral || t
            is GYearLiteral || t is GMonthDayLiteral || t is GDayLiteral || t is GMonthLiteral,
        t.wf(),
    ensures
        reads_back(t, rest),
{
    reveal(term_bytes);
    reveal(decode_payload);
    match t {
        EncodedTerm::DateTimeLiteral(v) => {
            lemma_timestamp_round_trip(v);
            lemma_parse_fixed(TYPE_DATE_TIME_LITERAL, timestamp_bytes(v), rest);
        },
        EncodedTerm::TimeLiteral(v) => {
            lemma_timestamp_round_trip(v);
            lemma_parse_fixed(TYPE_TIME_LITERAL, timestamp_bytes(v), rest);
        },
        EncodedTerm::DateLiteral(v) => {
            lemma_timestamp_round_trip(v);
            lemma_parse_fixed(TYPE_DATE_LITERAL, timestamp_bytes(v), rest);
        },
        EncodedTerm::GYearMonthLiteral(v) => {
            lemma_timestamp_round_trip(v);
            lemma_parse_fixed(TYPE_G_YEAR_MONTH_LITERAL, timestamp_bytes(v), rest);
        },
        EncodedTerm::GYearLiteral(v) => {
            lemma_timestamp_round_trip(v);
            lemma_parse_fixed(TYPE_G_YEAR_LITERAL, timestamp_bytes(v), rest);
        },
        EncodedTerm::GMonthDayLiteral(v) => {
            lemma_timestamp_round_trip(v);
            lemma_parse_fixed(TYPE_G_MONTH_DAY_LITERAL, timestamp_bytes(v), rest);
        },
        EncodedTerm::GDayLiteral(v) => {
            lemma_timestamp_round_trip(v);
            lemma_parse_fixed(TYPE_G_DAY_LITERAL, timestamp_bytes(v), rest);
        },
        EncodedTerm::GMonthLiteral(v) => {
            lemma_timestamp_round_trip(v);
            lemma_parse_fixed(TYPE_G_MONTH_LITERAL, timestamp_bytes(v), rest);
        },
        _ => {},
    }
}

/// Reading a quoted triple is reading its type byte and its three terms.
proof fn lemma_parse_triple(
    s: Seq<u8>,
    subject: EncodedTerm,
    n1: nat,
    predicate: EncodedTerm,
    n2: nat,
    object: EncodedTerm,
    n3: nat,
)
    requires
        s.len() > 0,
        s[0] == TYPE_TRIPLE,
        1 + n1 + n2 <= s.len(),
        parse_term(s.skip(1)) == Ok::<(EncodedTerm, nat), CorruptionError>((subject, n1)),
        parse_term(s.skip(1 + n1 as int)) == Ok::<(EncodedTerm, nat), CorruptionError>(
            (predicate, n2),
        ),
        parse_term(s.skip(1 + n1 as int + n2 as int)) == Ok::<(EncodedTerm, nat), CorruptionError>(
            (object, n3),
        ),
    ensures
        parse_term(s) == Ok::<(EncodedTerm, nat), CorruptionError>(
            (
                EncodedTerm::Triple(Box::new(EncodedTriple { subject, predicate, object })),
                (1 + n1 + n2 + n3) as nat,
            ),
        ),
{
    reveal(parse_term);
}

#[verifier::rlimit(30)]
proof fn lemma_reads_back_triple(triple: EncodedTriple, rest: Seq<u8>)
    requires
        reads_back(
            triple.subject,
            term_bytes(triple.predicate) + (term_bytes(triple.object) + rest),
        ),
        reads_back(triple.predicate, term_bytes(triple.object) + rest),
        reads_back(triple.object, rest),
    ensures
        reads_back(EncodedTerm::Triple(Box::new(triple)), rest),
{
    reveal(term_bytes);
    let t = EncodedTerm::Triple(Box::new(triple));
    let a = term_bytes(triple.subject);
    let b = term_bytes(triple.predicate);
    let c = term_bytes(triple.object);
    let s = term_bytes(t) + rest;
    assert(term_bytes(t) == seq![TYPE_TRIPLE] + (a + (b + c)));
    assert(s[0] == TYPE_TRIPLE);
    assert(s.skip(1) =~= a + (b + (c + rest)));
    assert(s.skip(1 + a.len() as int) =~= b + (c + rest));
    assert(s.skip(1 + a.len() as int + b.len() as int) =~= c + rest);
    assert(term_bytes(t).len() == 1 + a.len() + b.len() + c.len());
    lemma_parse_triple(s, triple.subject, a.len(), triple.predicate, b.len(), triple.object, c.len());
}

/// Reading the binary form of a well-formed term gives the term back and
/// takes exactly its bytes, whatever follows them.
#[verifier::rlimit(30)]
pub proof fn lemma_parse_term_bytes(t: EncodedTerm, rest: Seq<u8>)
    requires
        t.wf(),
    ensures
        reads_back(t, rest),
    decreases t,
{
    if t is Triple {
        let triple = *t->Triple_0;
        lemma_parse_term_bytes(
            triple.subject,
            term_bytes(triple.predicate) + (term_bytes(triple.object) + rest),
        );
        lemma_parse_term_bytes(triple.predicate, term_bytes(triple.object) + rest);
        lemma_parse_term_bytes(triple.object, rest);
        lemma_reads_back_triple(triple, rest);
    } else if t is NamedNode || t is NumericalBlankNode || t is BigBlankNode || t
        is BigStringLiteral {
        lemma_reads_back_hashes(t, rest);
    } else if t is SmallBlankNode || t is SmallStringLiteral {
        lemma_reads_back_small(t, rest);
    } else if t is SmallSmallLangStringLiteral || t is SmallBigLangStringLiteral || t
        is BigSmallLangStringLiteral || t is BigBigLangStringLiteral {
        lemma_reads_back_lang(t, rest);
    } else if t is SmallTypedLiteral || t is BigTypedLiteral || t is BooleanLiteral {
        lemma_reads_back_typed(t, rest);
    } else if t is FloatLiteral || t is DoubleLiteral || t is IntegerLiteral || t
        is DecimalLiteral || t is DurationLiteral || t is YearMonthDurationLiteral || t
        is DayTimeDurationLiteral {
        lemma_reads_back_numbers(t, rest);
    } else if !(t is DefaultGraph) {
        lemma_reads_back_dates(t, rest);
    }
}

/// Appends the binary form of `term` to `sink`.
pub fn write_term(sink: &mut Vec<u8>, term: &EncodedTerm)
    ensures
        final(sink)@ == old(sink)@ + term_bytes(*term),
    decreases *term,
{
    let ghost before = sink@;
    match term {
        EncodedTerm::DefaultGraph => (),
        EncodedTerm::NamedNode { iri_id } => {
            sink.push(TYPE_NAMED_NODE_ID);
            write_u128(sink, iri_id.hash);
        },
        EncodedTerm::NumericalBlankNode { id } => {
            sink.push(TYPE_NUMERICAL_BLANK_NODE_ID);
            write_u128(sink, *id);
        },
        EncodedTerm::SmallBlankNode(id) => {
            sink.push(TYPE_SMALL_BLANK_NODE_ID);
            write_slice(sink, id.to_be_bytes().as_slice());
        },
        EncodedTerm::BigBlankNode { id_id } => {
            sink.push(TYPE_BIG_BLANK_NODE_ID);
            write_u128(sink, id_id.hash);
        },
        EncodedTerm::SmallStringLiteral(value) => {
            sink.push(TYPE_SMALL_STRING_LITERAL);
            write_slice(sink, value.to_be_bytes().as_slice());
        },
        EncodedTerm::BigStringLiteral { value_id } => {
            sink.push(TYPE_BIG_STRING_LITERAL);
            write_u128(sink, value_id.hash);
        },
        EncodedTerm::SmallSmallLangStringLiteral { value, language } => {
            sink.push(TYPE_SMALL_SMALL_LANG_STRING_LITERAL);
            write_slice(sink, language.to_be_bytes().as_slice());
            write_slice(sink, value.to_be_bytes().as_slice());
        },
        EncodedTerm::SmallBigLangStringLiteral { value, language_id } => {
            sink.push(TYPE_SMALL_BIG_LANG_STRING_LITERAL);
            write_u128(sink, language_id.hash);
            write_slice(sink, value.to_be_bytes().as_slice());
        },
        EncodedTerm::BigSmallLangStringLiteral { value_id, language } => {
            sink.push(TYPE_BIG_SMALL_LANG_STRING_LITERAL);
            write_slice(sink, language.to_be_bytes().as_slice());
            write_u128(sink, value_id.hash);
        },
        EncodedTerm::BigBigLangStringLiteral { value_id, language_id } => {
            sink.push(TYPE_BIG_BIG_LANG_STRING_LITERAL);
            write_u128(sink, language_id.hash);
            write_u128(sink, value_id.hash);
        },
        EncodedTerm::SmallTypedLiteral { value, datatype_id } => {
            sink.push(TYPE_SMALL_TYPED_LITERAL);
            write_u128(sink, datatype_id.hash);
            write_slice(sink, value.to_be_bytes().as_slice());
        },
        EncodedTerm::BigTypedLiteral { value_id, datatype_id } => {
            sink.push(TYPE_BIG_TYPED_LITERAL);
            write_u128(sink, datatype_id.hash);
            write_u128(sink, value_id.hash);
        },
        EncodedTerm::BooleanLiteral(b) => {
            if *b {
                sink.push(TYPE_BOOLEAN_LITERAL_TRUE);
            } else {
                sink.push(TYPE_BOOLEAN_LITERAL_FALSE);
            }
        },
        EncodedTerm::FloatLiteral(bits) => {
            sink.push(TYPE_FLOAT_LITERAL);
            write_u32(sink, *bits);
        },
        EncodedTerm::DoubleLiteral(bits) => {
            sink.push(TYPE_DOUBLE_LITERAL);
            write_u64(sink, *bits);
        },
        EncodedTerm::IntegerLiteral(v) => {
            sink.push(TYPE_INTEGER_LITERAL);
            write_i64(sink, *v);
        },
        EncodedTerm::DecimalLiteral(v) => {
            sink.push(TYPE_DECIMAL_LITERAL);
            write_i128(sink, *v);
        },
        EncodedTerm::DateTimeLiteral(v) => {
            sink.push(TYPE_DATE_TIME_LITERAL);
            write_timestamp(sink, v);
        },
        EncodedTerm::TimeLiteral(v) => {
            sink.push(TYPE_TIME_LITERAL);
            write_timestamp(sink, v);
        },
        EncodedTerm::DateLiteral(v) => {
            sink.push(TYPE_DATE_LITERAL);
            write_timestamp(sink, v);
        },
        EncodedTerm::GYearMonthLiteral(v) => {
            sink.push(TYPE_G_YEAR_MONTH_LITERAL);
            write_timestamp(sink, v);
        },
        EncodedTerm::GYearLiteral(v) => {
            sink.push(TYPE_G_YEAR_LITERAL);
            write_timestamp(sink, v);
        },
        EncodedTerm::GMonthDayLiteral(v) => {
            sink.push(TYPE_G_MONTH_DAY_LITERAL);
            write_timestamp(sink, v);
        },
        EncodedTerm::GDayLiteral(v) => {
            sink.push(TYPE_G_DAY_LITERAL);
            write_timestamp(sink, v);
        },
        EncodedTerm::GMonthLiteral(v) => {
            sink.push(TYPE_G_MONTH_LITERAL);
            write_timestamp(sink, v);
        },
        EncodedTerm::DurationLiteral(v) => {
            sink.push(TYPE_DURATION_LITERAL);
            write_i64(sink, v.months);
            write_i128(sink, v.seconds);
        },
        EncodedTerm::YearMonthDurationLiteral(v) => {
            sink.push(TYPE_YEAR_MONTH_DURATION_LITERAL);
            write_i64(sink, *v);
        },
        EncodedTerm::DayTimeDurationLiteral(v) => {
            sink.push(TYPE_DAY_TIME_DURATION_LITERAL);
            write_i128(sink, *v);
        },
        EncodedTerm::Triple(value) => {
            sink.push(TYPE_TRIPLE);
            write_term(sink, &value.subject);
            write_term(sink, &value.predicate);
            write_term(sink, &value.object);
        },
    }
    proof {
        reveal(term_bytes);
        assert(sink@ =~= before + term_bytes(*term));
    }
}

/// Appends the eighteen bytes of a timestamp to `sink`.
fn write_timestamp(sink: &mut Vec<u8>, t: &Timestamp)
    ensures
        final(sink)@ == old(sink)@ + timestamp_bytes(*t),
{
    let ghost before = sink@;
    write_i128(sink, t.value);
    match t.timezone_offset {
        Some(offset) => write_i16(sink, offset),
        None => {
            sink.push(0xff);
            sink.push(0xff);
        },
    }
    proof {
        assert(sink@ =~= before + timestamp_bytes(*t));
    }
}

/// The width of the payload that follows `tag`, if `tag` is the type byte
/// of a term that is not a quoted triple.
fn payload_width_of(tag: u8) -> (w: Option<usize>)
    ensures
        w matches Some(n) ==> payload_width(tag) == Some(n as nat),
        w is None ==> payload_width(tag) is None,
{
    if tag == 1 || tag == 8 || tag == 9 || tag == 10 || tag == 16 || tag == 17 || tag == 33 || tag
        == 44 {
        Some(16)
    } else if 20 <= tag && tag <= 25 {
        Some(32)
    } else if tag == 28 || tag == 29 {
        Some(0)
    } else if tag == 30 {
        Some(4)
    } else if tag == 31 || tag == 32 || tag == 43 {
        Some(8)
    } else if 34 <= tag && tag <= 41 {
        Some(18)
    } else if tag == 42 {
        Some(24)
    } else {
        None
    }
}

/// The small string in the sixteen bytes at `pos`.
fn read_small_string(buf: &[u8], pos: usize) -> (r: Result<SmallString, StorageError>)
    requires
        pos + 16 <= buf@.len(),
    ensures
        is_small_string(buf@.subrange(pos as int, pos + 16)) ==> r == Ok::<_, StorageError>(
            small_string_of(buf@.subrange(pos as int, pos + 16)),
        ),
        !is_small_string(buf@.subrange(pos as int, pos + 16)) ==> r == Err::<SmallString, _>(
            StorageError::Corruption(CorruptionError::BadSmallString),
        ),
{
    match SmallString::from_be_bytes(read_array_16(buf, pos)) {
        Ok(s) => {
            proof {
                lemma_small_string_of(s);
            }
            Ok(s)
        },
        Err(_) => Err(StorageError::Corruption(CorruptionError::BadSmallString)),
    }
}

/// The hash in the sixteen bytes at `pos`.
fn read_hash(buf: &[u8], pos: usize) -> (h: StrHash)
    requires
        pos + 16 <= buf@.len(),
    ensures
        h == (StrHash { hash: u128_of(buf@.subrange(pos as int, pos + 16)) }),
{
    StrHash { hash: read_u128(buf, pos) }
}

/// The timestamp in the eighteen bytes at `pos`.
fn read_timestamp(buf: &[u8], pos: usize) -> (t: Timestamp)
    requires
        pos + 18 <= buf@.len(),
    ensures
        t == timestamp_of(buf@.subrange(pos as int, pos + 18)),
{
    let len: usize = buf.len();
    let ghost p = buf@.subrange(pos as int, pos + 18);
    proof {
        assert(p.subrange(0, 16) =~= buf@.subrange(pos as int, pos + 16));
        assert(p.subrange(16, 18) =~= buf@.subrange(pos + 16, pos + 18));
    }
    let value = read_i128(buf, pos);
    let absent = buf[pos + 16] == 0xff && buf[pos + 17] == 0xff;
    proof {
        let o = p.subrange(16, 18);
        assert(o[0] == buf@[pos + 16] && o[1] == buf@[pos + 17]);
        if absent {
            assert(o =~= no_offset_bytes());
        } else {
            assert(no_offset_bytes()[0] == 0xff && no_offset_bytes()[1] == 0xff);
        }
    }
    if absent {
        Timestamp { value, timezone_offset: None }
    } else {
        Timestamp { value, timezone_offset: Some(read_i16(buf, pos + 16)) }
    }
}

/// The term that a type byte other than that of a quoted triple and the
/// payload at `pos` stand for.
fn read_payload(buf: &[u8], pos: usize, tag: u8, width: usize) -> (r: Result<
    EncodedTerm,
    StorageError,
>)
    requires
        payload_width(tag) == Some(width as nat),
        pos + width <= buf@.len(),
    ensures
        match decode_payload(tag, buf@.subrange(pos as int, pos + width)) {
            Ok(t) => r == Ok::<_, StorageError>(t),
            Err(e) => r == Err::<EncodedTerm, _>(StorageError::Corruption(e)),
        },
{
    let len: usize = buf.len();
    let ghost p = buf@.subrange(pos as int, pos + width);
    proof {
        reveal(decode_payload);
        if width == 32 {
            assert(p.subrange(0, 16) =~= buf@.subrange(pos as int, pos + 16));
            assert(p.subrange(16, 32) =~= buf@.subrange(pos + 16, pos + 32));
        }
        if width == 24 {
            assert(p.subrange(0, 8) =~= buf@.subrange(pos as int, pos + 8));
            assert(p.subrange(8, 24) =~= buf@.subrange(pos + 8, pos + 24));
        }
    }
    if tag == TYPE_NAMED_NODE_ID {
        Ok(EncodedTerm::NamedNode { iri_id: read_hash(buf, pos) })
    } else if tag == TYPE_NUMERICAL_BLANK_NODE_ID {
        Ok(EncodedTerm::NumericalBlankNode { id: read_u128(buf, pos) })
    } else if tag == TYPE_SMALL_BLANK_NODE_ID {
        Ok(EncodedTerm::SmallBlankNode(read_small_string(buf, pos)?))
    } else if tag == TYPE_BIG_BLANK_NODE_ID {
        Ok(EncodedTerm::BigBlankNode { id_id: read_hash(buf, pos) })
    } else if tag == TYPE_SMALL_STRING_LITERAL {
        Ok(EncodedTerm::SmallStringLiteral(read_small_string(buf, pos)?))
    } else if tag == TYPE_BIG_STRING_LITERAL {
        Ok(EncodedTerm::BigStringLiteral { value_id: read_hash(buf, pos) })
    } else if tag == TYPE_SMALL_SMALL_LANG_STRING_LITERAL {
        let language = read_small_string(buf, pos);
        let value = read_small_string(buf, pos + 16);
        match (value, language) {
            (Ok(value), Ok(language)) => Ok(
                EncodedTerm::SmallSmallLangStringLiteral { value, language },
            ),
            _ => Err(StorageError::Corruption(CorruptionError::BadSmallString)),
        }
    } else if tag == TYPE_SMALL_BIG_LANG_STRING_LITERAL {
        let language_id = read_hash(buf, pos);
        let value = read_small_string(buf, pos + 16)?;
        Ok(EncodedTerm::SmallBigLangStringLiteral { value, language_id })
    } else if tag == TYPE_BIG_SMALL_LANG_STRING_LITERAL {
        let language = read_small_string(buf, pos)?;
        let value_id = read_hash(buf, pos + 16);
        Ok(EncodedTerm::BigSmallLangStringLiteral { value_id, language })
    } else if tag == TYPE_BIG_BIG_LANG_STRING_LITERAL {
        let language_id = read_hash(buf, pos);
        let value_id = read_hash(buf, pos + 16);
        Ok(EncodedTerm::BigBigLangStringLiteral { value_id, language_id })
    } else if tag == TYPE_SMALL_TYPED_LITERAL {
        let datatype_id = read_hash(buf, pos);
        let value = read_small_string(buf, pos + 16)?;
        Ok(EncodedTerm::SmallTypedLiteral { value, datatype_id })
    } else if tag == TYPE_BIG_TYPED_LITERAL {
        let datatype_id = read_hash(buf, pos);
        let value_id = read_hash(buf, pos + 16);
        Ok(EncodedTerm::BigTypedLiteral { value_id, datatype_id })
    } else if tag == TYPE_BOOLEAN_LITERAL_TRUE {
        Ok(EncodedTerm::BooleanLiteral(true))
    } else if tag == TYPE_BOOLEAN_LITERAL_FALSE {
        Ok(EncodedTerm::BooleanLiteral(false))
    } else if tag == TYPE_FLOAT_LITERAL {
        Ok(EncodedTerm::FloatLiteral(read_u32(buf, pos)))
    } else if tag == TYPE_DOUBLE_LITERAL {
        Ok(EncodedTerm::DoubleLiteral(read_u64(buf, pos)))
    } else if tag == TYPE_INTEGER_LITERAL {
        Ok(EncodedTerm::IntegerLiteral(read_i64(buf, pos)))
    } else if tag == TYPE_DECIMAL_LITERAL {
        Ok(EncodedTerm::DecimalLiteral(read_i128(buf, pos)))
    } else if tag == TYPE_DATE_TIME_LITERAL {
        Ok(EncodedTerm::DateTimeLiteral(read_timestamp(buf, pos)))
    } else if tag == TYPE_TIME_LITERAL {
        Ok(EncodedTerm::TimeLiteral(read_timestamp(buf, pos)))
    } else if tag == TYPE_DATE_LITERAL {
        Ok(EncodedTerm::DateLiteral(read_timestamp(buf, pos)))
    } else if tag == TYPE_G_YEAR_MONTH_LITERAL {
        Ok(EncodedTerm::GYearMonthLiteral(read_timestamp(buf, pos)))
    } else if tag == TYPE_G_YEAR_LITERAL {
        Ok(EncodedTerm::GYearLiteral(read_timestamp(buf, pos)))
    } else if tag == TYPE_G_MONTH_DAY_LITERAL {
        Ok(EncodedTerm::GMonthDayLiteral(read_timestamp(buf, pos)))
    } else if tag == TYPE_G_DAY_LITERAL {
        Ok(EncodedTerm::GDayLiteral(read_timestamp(buf, pos)))
    } else if tag == TYPE_G_MONTH_LITERAL {
        Ok(EncodedTerm::GMonthLiteral(read_timestamp(buf, pos)))
    } else if tag == TYPE_DURATION_LITERAL {
        let months = read_i64(buf, pos);
        let seconds = read_i128(buf, pos + 8);
        Ok(EncodedTerm::DurationLiteral(Duration { months, seconds }))
    } else if tag == TYPE_YEAR_MONTH_DURATION_LITERAL {
        Ok(EncodedTerm::YearMonthDurationLiteral(read_i64(buf, pos)))
    } else {
        Ok(EncodedTerm::DayTimeDurationLiteral(read_i128(buf, pos)))
    }
}

/// Reads the term that starts at `pos` and gives it with the position
/// after it.
pub fn read_term_at(buf: &[u8], pos: usize) -> (r: Result<(EncodedTerm, usize), StorageError>)
    requires
        pos <= buf@.len(),
    ensures
        match parse_term(buf@.skip(pos as int)) {
            Ok((t, n)) => pos + n <= buf@.len() <= usize::MAX && r == Ok::<_, StorageError>(
                (t, (pos + n) as usize),
            ),
            Err(e) => r == Err::<(EncodedTerm, usize), _>(StorageError::Corruption(e)),
        },
    decreases buf@.len() - pos,
{
    let len: usize = buf.len();
    let ghost s = buf@.skip(pos as int);
    proof {
        reveal(parse_term);
        lemma_parse_term_consumes(s);
    }
    if pos >= len {
        return Err(StorageError::Corruption(CorruptionError::UnexpectedEnd));
    }
    let tag: u8 = buf[pos];
    assert(s[0] == tag);
    if tag == TYPE_TRIPLE {
        proof {
            assert(s.skip(1) =~= buf@.skip(pos + 1));
            lemma_parse_term_consumes(s.skip(1));
        }
        let (subject, after_subject) = read_term_at(buf, pos + 1)?;
        proof {
            assert(s.skip(after_subject - pos) =~= buf@.skip(after_subject as int));
            lemma_parse_term_consumes(buf@.skip(after_subject as int));
        }
        let (predicate, after_predicate) = read_term_at(buf, after_subject)?;
        proof {
            assert(s.skip(after_predicate - pos) =~= buf@.skip(after_predicate as int));
            lemma_parse_term_consumes(buf@.skip(after_predicate as int));
        }
        let (object, after_object) = read_term_at(buf, after_predicate)?;
        Ok((EncodedTerm::Triple(Box::new(EncodedTriple { subject, predicate, object })), after_object))
    } else {
        match payload_width_of(tag) {
            None => Err(StorageError::Corruption(CorruptionError::InvalidTypeId)),
            Some(width) => {
                if len - pos - 1 < width {
                    return Err(StorageError::Corruption(CorruptionError::UnexpectedEnd));
                }
                proof {
                    assert(s.subrange(1, 1 + width as int) =~= buf@.subrange(
                        pos + 1,
                        pos + 1 + width,
                    ));
                }
                let term = read_payload(buf, pos + 1, tag, width)?;
                Ok((term, pos + 1 + width))
            },
        }
    }
}

/// The nine orders in which the terms of a quad are laid out in a key.
/// The three that start with `D` hold no graph name: they are the indexes
/// of the default graph.
#[derive(Clone, Copy, Debug, PartialEq, Eq, Structural)]
pub enum QuadEncoding {
    Spog,
    Posg,
    Ospg,
    Gspo,
    Gpos,
    Gosp,
    Dspo,
    Dpos,
    Dosp,
}

impl QuadEncoding {
    /// Whether keys in this order hold no graph name.
    pub open spec fn is_default_graph_order(self) -> bool {
        self is Dspo || self is Dpos || self is Dosp
    }

    /// Whether a quad belongs to the indexes of this order: one of the
    /// default graph to the three orders without graph name, any other to
    /// the six orders with it.
    pub open spec fn holds(self, q: EncodedQuad) -> bool {
        self.is_default_graph_order() == (q.graph_name is DefaultGraph)
    }

    /// The terms of a quad in the order of this encoding.
    pub open spec fn terms(self, q: EncodedQuad) -> Seq<EncodedTerm> {
        match self {
            QuadEncoding::Spog => seq![q.subject, q.predicate, q.object, q.graph_name],
            QuadEncoding::Posg => seq![q.predicate, q.object, q.subject, q.graph_name],
            QuadEncoding::Ospg => seq![q.object, q.subject, q.predicate, q.graph_name],
            QuadEncoding::Gspo => seq![q.graph_name, q.subject, q.predicate, q.object],
            QuadEncoding::Gpos => seq![q.graph_name, q.predicate, q.object, q.subject],
            QuadEncoding::Gosp => seq![q.graph_name, q.object, q.subject, q.predicate],
            QuadEncoding::Dspo => seq![q.subject, q.predicate, q.object],
            QuadEncoding::Dpos => seq![q.predicate, q.object, q.subject],
            QuadEncoding::Dosp => seq![q.object, q.subject, q.predicate],
        }
    }

    /// The quad whose terms in the order of this encoding are `terms`.
    pub open spec fn quad_of(self, terms: Seq<EncodedTerm>) -> EncodedQuad {
        match self {
            QuadEncoding::Spog => EncodedQuad {
                subject: terms[0],
                predicate: terms[1],
                object: terms[2],
                graph_name: terms[3],
            },
            QuadEncoding::Posg => EncodedQuad {
                subject: terms[2],
                predicate: terms[0],
                object: terms[1],
                graph_name: terms[3],
            },
            QuadEncoding::Ospg => EncodedQuad {
                subject: terms[1],
                predicate: terms[2],
                object: terms[0],
                graph_name: terms[3],
            },
            QuadEncoding::Gspo => EncodedQuad {
                subject: terms[1],
                predicate: terms[2],
                object: terms[3],
                graph_name: terms[0],
            },
            QuadEncoding::Gpos => EncodedQuad {
                subject: terms[3],
                predicate: terms[1],
                object: terms[2],
                graph_name: terms[0],
            },
            QuadEncoding::Gosp => EncodedQuad {
                subject: terms[2],
                predicate: terms[3],
                object: terms[1],
                graph_name: terms[0],
            },
            QuadEncoding::Dspo => EncodedQuad {
                subject: terms[0],
                predicate: terms[1],
                object: terms[2],
                graph_name: EncodedTerm::DefaultGraph,
            },
            QuadEncoding::Dpos => EncodedQuad {
                subject: terms[2],
                predicate: terms[0],
                object: terms[1],
                graph_name: EncodedTerm::DefaultGraph,
            },
            QuadEncoding::Dosp => EncodedQuad {
                subject: terms[1],
                predicate: terms[2],
                object: terms[0],
                graph_name: EncodedTerm::DefaultGraph,
            },
        }
    }

    /// The number of terms in a key of this order.
    pub open spec fn arity(self) -> nat {
        if self.is_default_graph_order() {
            3
        } else {
            4
        }
    }
}

/// The binary forms of a list of terms, one after the other.
pub open spec fn terms_bytes(terms: Seq<EncodedTerm>) -> Seq<u8>
    decreases terms.len(),
{
    if terms.len() == 0 {
        Seq::empty()
    } else {
        term_bytes(terms[0]) + terms_bytes(terms.skip(1))
    }
}

/// The key of a quad in the index of an encoding.
pub open spec fn quad_key(encoding: QuadEncoding, q: EncodedQuad) -> Seq<u8> {
    terms_bytes(encoding.terms(q))
}

/// What reading `count` terms from the front of `s` gives: the terms and
/// the number of bytes that they take.
pub open spec fn parse_terms(s: Seq<u8>, count: nat) -> Result<
    (Seq<EncodedTerm>, nat),
    CorruptionError,
>
    decreases count,
{
    if count == 0 {
        Ok((Seq::empty(), 0))
    } else {
        match parse_term(s) {
            Err(e) => Err(e),
            Ok((first, n)) => match parse_terms(s.skip(n as int), (count - 1) as nat) {
                Err(e) => Err(e),
                Ok((others, m)) => Ok((seq![first] + others, n + m)),
            },
        }
    }
}

/// What decoding a key of an encoding gives. Bytes that follow the last
/// term are not looked at.
pub open spec fn parse_quad(encoding: QuadEncoding, s: Seq<u8>) -> Result<
    EncodedQuad,
    CorruptionError,
> {
    match parse_terms(s, encoding.arity()) {
        Err(e) => Err(e),
        Ok((terms, n)) => Ok(encoding.quad_of(terms)),
    }
}

/// Terms that are read take no more bytes than there are, and are as many as were asked for.
pub proof fn lemma_parse_terms_consumes(s: Seq<u8>, count: nat)
    ensures
        parse_terms(s, count) matches Ok((terms, n)) ==> n <= s.len() && terms.len() == count,
    decreases count,
{
    if count > 0 {
        lemma_parse_term_consumes(s);
        if let Ok((first, n)) = parse_term(s) {
            lemma_parse_terms_consumes(s.skip(n as int), (count - 1) as nat);
        }
    }
}

/// Reading the binary forms of well-formed terms gives the terms back.
pub proof fn lemma_parse_terms_bytes(terms: Seq<EncodedTerm>, rest: Seq<u8>)
    requires
        forall|i: int| 0 <= i < terms.len() ==> (#[trigger] terms[i]).wf(),
    ensures
        parse_terms(terms_bytes(terms) + rest, terms.len()) == Ok::<
            (Seq<EncodedTerm>, nat),
            CorruptionError,
        >((terms, terms_bytes(terms).len())),
    decreases terms.len(),
{
    if terms.len() == 0 {
        assert(terms =~= Seq::empty());
    } else {
        let head = term_bytes(terms[0]);
        let tail = terms_bytes(terms.skip(1));
        let s = terms_bytes(terms) + rest;
        assert(s =~= head + (tail + rest));
        lemma_parse_term_bytes(terms[0], tail + rest);
        lemma_concat_split(head, tail + rest);
        assert forall|i: int| 0 <= i < terms.skip(1).len() implies (#[trigger] terms.skip(
            1,
        )[i]).wf() by {
            assert(terms.skip(1)[i] == terms[i + 1]);
        }
        lemma_parse_terms_bytes(terms.skip(1), rest);
        assert(seq![terms[0]] + terms.skip(1) =~= terms);
    }
}

/// Whatever the order of an index, the key of a well-formed quad that the
/// index holds decodes to the quad, also when other bytes follow the key.
pub proof fn lemma_quad_round_trip(encoding: QuadEncoding, q: EncodedQuad, rest: Seq<u8>)
    requires
        q.wf(),
        encoding.holds(q),
    ensures
        parse_quad(encoding, quad_key(encoding, q) + rest) == Ok::<EncodedQuad, CorruptionError>(
            q,
        ),
{
    let terms = encoding.terms(q);
    lemma_parse_terms_bytes(terms, rest);
}

/// Two well-formed quads of one index with the same key are the same quad.
pub proof fn lemma_quad_key_injective(encoding: QuadEncoding, a: EncodedQuad, b: EncodedQuad)
    requires
        a.wf(),
        b.wf(),
        encoding.holds(a),
        encoding.holds(b),
        quad_key(encoding, a) == quad_key(encoding, b),
    ensures
        a == b,
{
    lemma_quad_round_trip(encoding, a, Seq::empty());
    lemma_quad_round_trip(encoding, b, Seq::empty());
}

/// Two well-formed terms with the same binary form are the same term.
pub proof fn lemma_term_bytes_injective(a: EncodedTerm, b: EncodedTerm)
    requires
        a.wf(),
        b.wf(),
        term_bytes(a) == term_bytes(b),
    ensures
        a == b,
{
    lemma_parse_term_bytes(a, Seq::empty());
    lemma_parse_term_bytes(b, Seq::empty());
}

/// The binary forms of up to four terms, written out.
pub proof fn lemma_terms_bytes_unfold(a: EncodedTerm, b: EncodedTerm, c: EncodedTerm, d: EncodedTerm)
    ensures
        terms_bytes(seq![a]) == term_bytes(a),
        terms_bytes(seq![a, b]) == term_bytes(a) + term_bytes(b),
        terms_bytes(seq![a, b, c]) == term_bytes(a) + term_bytes(b) + term_bytes(c),
        terms_bytes(seq![a, b, c, d]) == term_bytes(a) + term_bytes(b) + term_bytes(c)
            + term_bytes(d),
{
    reveal_with_fuel(terms_bytes, 5);
    assert(seq![a].skip(1) =~= Seq::<EncodedTerm>::empty());
    assert(seq![a, b].skip(1) =~= seq![b]);
    assert(seq![a, b, c].skip(1) =~= seq![b, c]);
    assert(seq![a, b, c, d].skip(1) =~= seq![b, c, d]);
    assert(seq![b].skip(1) =~= Seq::<EncodedTerm>::empty());
    assert(seq![b, c].skip(1) =~= seq![c]);
    assert(seq![b, c, d].skip(1) =~= seq![c, d]);
    assert(seq![c].skip(1) =~= Seq::<EncodedTerm>::empty());
    assert(seq![c, d].skip(1) =~= seq![d]);
    assert(seq![d].skip(1) =~= Seq::<EncodedTerm>::empty());
    assert(terms_bytes(seq![d]) =~= term_bytes(d));
    assert(terms_bytes(seq![c]) =~= term_bytes(c));
    assert(terms_bytes(seq![b]) =~= term_bytes(b));
    assert(terms_bytes(seq![a]) =~= term_bytes(a));
    assert(terms_bytes(seq![c, d]) =~= term_bytes(c) + term_bytes(d));
    assert(terms_bytes(seq![b, c]) =~= term_bytes(b) + term_bytes(c));
    assert(terms_bytes(seq![a, b]) =~= term_bytes(a) + term_bytes(b));
    assert(terms_bytes(seq![b, c, d]) =~= term_bytes(b) + term_bytes(c) + term_bytes(d));
    assert(terms_bytes(seq![a, b, c]) =~= term_bytes(a) + term_bytes(b) + term_bytes(c));
    assert(terms_bytes(seq![a, b, c, d]) =~= term_bytes(a) + term_bytes(b) + term_bytes(c)
        + term_bytes(d));
}

/// Appends the terms of `quad` in the order subject, predicate, object, graph name.
pub fn write_spog_quad(sink: &mut Vec<u8>, quad: &EncodedQuad)
    ensures
        final(sink)@ == old(sink)@ + quad_key(QuadEncoding::Spog, *quad),
{
    let ghost before = sink@;
    write_term(sink, &quad.subject);
    write_term(sink, &quad.predicate);
    write_term(sink, &quad.object);
    write_term(sink, &quad.graph_name);
    proof {
        lemma_terms_bytes_unfold(quad.subject, quad.predicate, quad.object, quad.graph_name);
        assert(sink@ =~= before + quad_key(QuadEncoding::Spog, *quad));
    }
}

/// Appends the terms of `quad` in the order predicate, object, subject, graph name.
pub fn write_posg_quad(sink: &mut Vec<u8>, quad: &EncodedQuad)
    ensures
        final(sink)@ == old(sink)@ + quad_key(QuadEncoding::Posg, *quad),
{
    let ghost before = sink@;
    write_term(sink, &quad.predicate);
    write_term(sink, &quad.object);
    write_term(sink, &quad.subject);
    write_term(sink, &quad.graph_name);
    proof {
        lemma_terms_bytes_unfold(quad.predicate, quad.object, quad.subject, quad.graph_name);
        assert(sink@ =~= before + quad_key(QuadEncoding::Posg, *quad));
    }
}

/// Appends the terms of `quad` in the order object, subject, predicate, graph name.
pub fn write_ospg_quad(sink: &mut Vec<u8>, quad: &EncodedQuad)
    ensures
        final(sink)@ == old(sink)@ + quad_key(QuadEncoding::Ospg, *quad),
{
    let ghost before = sink@;
    write_term(sink, &quad.object);
    write_term(sink, &quad.subject);
    write_term(sink, &quad.predicate);
    write_term(sink, &quad.graph_name);
    proof {
        lemma_terms_bytes_unfold(quad.object, quad.subject, quad.predicate, quad.graph_name);
        assert(sink@ =~= before + quad_key(QuadEncoding::Ospg, *quad));
    }
}

/// Appends the terms of `quad` in the order graph name, subject, predicate, object.
pub fn write_gspo_quad(sink: &mut Vec<u8>, quad: &EncodedQuad)
    ensures
        final(sink)@ == old(sink)@ + quad_key(QuadEncoding::Gspo, *quad),
{
    let ghost before = sink@;
    write_term(sink, &quad.graph_name);
    write_term(sink, &quad.subject);
    write_term(sink, &quad.predicate);
    write_term(sink, &quad.object);
    proof {
        lemma_terms_bytes_unfold(quad.graph_name, quad.subject, quad.predicate, quad.object);
        assert(sink@ =~= before + quad_key(QuadEncoding::Gspo, *quad));
    }
}

/// Appends the terms of `quad` in the order graph name, predicate, object, subject.
pub fn write_gpos_quad(sink: &mut Vec<u8>, quad: &EncodedQuad)
    ensures
        final(sink)@ == old(sink)@ + quad_key(QuadEncoding::Gpos, *quad),
{
    let ghost before = sink@;
    write_term(sink, &quad.graph_name);
    write_term(sink, &quad.predicate);
    write_term(sink, &quad.object);
    write_term(sink, &quad.subject);
    proof {
        lemma_terms_bytes_unfold(quad.graph_name, quad.predicate, quad.object, quad.subject);
        assert(sink@ =~= before + quad_key(QuadEncoding::Gpos, *quad));
    }
}

/// Appends the terms of `quad` in the order graph name, object, subject, predicate.
pub fn write_gosp_quad(sink: &mut Vec<u8>, quad: &EncodedQuad)
    ensures
        final(sink)@ == old(sink)@ + quad_key(QuadEncoding::Gosp, *quad),
{
    let ghost before = sink@;
    write_term(sink, &quad.graph_name);
    write_term(sink, &quad.object);
    write_term(sink, &quad.subject);
    write_term(sink, &quad.predicate);
    proof {
        lemma_terms_bytes_unfold(quad.graph_name, quad.object, quad.subject, quad.predicate);
        assert(sink@ =~= before + quad_key(QuadEncoding::Gosp, *quad));
    }
}

/// Appends the terms of `quad` in the order subject, predicate, object.
pub fn write_spo_quad(sink: &mut Vec<u8>, quad: &EncodedQuad)
    ensures
        final(sink)@ == old(sink)@ + quad_key(QuadEncoding::Dspo, *quad),
{
    let ghost before = sink@;
    write_term(sink, &quad.subject);
    write_term(sink, &quad.predicate);
    write_term(sink, &quad.object);
    proof {
        lemma_terms_bytes_unfold(quad.subject, quad.predicate, quad.object, quad.subject);
        assert(sink@ =~= before + quad_key(QuadEncoding::Dspo, *quad));
    }
}

/// Appends the terms of `quad` in the order predicate, object, subject.
pub fn write_pos_quad(sink: &mut Vec<u8>, quad: &EncodedQuad)
    ensures
        final(sink)@ == old(sink)@ + quad_key(QuadEncoding::Dpos, *quad),
{
    let ghost before = sink@;
    write_term(sink, &quad.predicate);
    write_term(sink, &quad.object);
    write_term(sink, &quad.subject);
    proof {
        lemma_terms_bytes_unfold(quad.predicate, quad.object, quad.subject, quad.subject);
        assert(sink@ =~= before + quad_key(QuadEncoding::Dpos, *quad));
    }
}

/// Appends the terms of `quad` in the order object, subject, predicate.
pub fn write_osp_quad(sink: &mut Vec<u8>, quad: &EncodedQuad)
    ensures
        final(sink)@ == old(sink)@ + quad_key(QuadEncoding::Dosp, *quad),
{
    let ghost before = sink@;
    write_term(sink, &quad.object);
    write_term(sink, &quad.subject);
    write_term(sink, &quad.predicate);
    proof {
        lemma_terms_bytes_unfold(quad.object, quad.subject, quad.predicate, quad.subject);
        assert(sink@ =~= before + quad_key(QuadEncoding::Dosp, *quad));
    }
}

/// The binary form of a term.
pub fn encode_term(t: &EncodedTerm) -> (bytes: Vec<u8>)
    ensures
        bytes@ == term_bytes(*t),
{
    let mut vec = Vec::with_capacity(WRITTEN_TERM_MAX_SIZE);
    write_term(&mut vec, t);
    proof {
        assert(vec@ =~= term_bytes(*t));
    }
    vec
}

/// The binary forms of two terms, one after the other.
pub fn encode_term_pair(t1: &EncodedTerm, t2: &EncodedTerm) -> (bytes: Vec<u8>)
    ensures
        bytes@ == term_bytes(*t1) + term_bytes(*t2),
{
    let mut vec = Vec::with_capacity(2 * WRITTEN_TERM_MAX_SIZE);
    write_term(&mut vec, t1);
    write_term(&mut vec, t2);
    proof {
        assert(vec@ =~= term_bytes(*t1) + term_bytes(*t2));
    }
    vec
}

/// The binary forms of three terms, one after the other.
pub fn encode_term_triple(t1: &EncodedTerm, t2: &EncodedTerm, t3: &EncodedTerm) -> (bytes: Vec<u8>)
    ensures
        bytes@ == term_bytes(*t1) + term_bytes(*t2) + term_bytes(*t3),
{
    let mut vec = Vec::with_capacity(3 * WRITTEN_TERM_MAX_SIZE);
    write_term(&mut vec, t1);
    write_term(&mut vec, t2);
    write_term(&mut vec, t3);
    proof {
        assert(vec@ =~= term_bytes(*t1) + term_bytes(*t2) + term_bytes(*t3));
    }
    vec
}

/// The binary forms of four terms, one after the other.
pub fn encode_term_quad(
    t1: &EncodedTerm,
    t2: &EncodedTerm,
    t3: &EncodedTerm,
    t4: &EncodedTerm,
) -> (bytes: Vec<u8>)
    ensures
        bytes@ == term_bytes(*t1) + term_bytes(*t2) + term_bytes(*t3) + term_bytes(*t4),
{
    let mut vec = Vec::with_capacity(4 * WRITTEN_TERM_MAX_SIZE);
    write_term(&mut vec, t1);
    write_term(&mut vec, t2);
    write_term(&mut vec, t3);
    write_term(&mut vec, t4);
    proof {
        assert(vec@ =~= term_bytes(*t1) + term_bytes(*t2) + term_bytes(*t3) + term_bytes(*t4));
    }
    vec
}

/// What a reader of terms gives for the result of a parse.
pub open spec fn term_read_result(
    parsed: Result<(EncodedTerm, nat), CorruptionError>,
    r: Result<EncodedTerm, StorageError>,
) -> bool {
    match parsed {
        Ok((t, n)) => r == Ok::<_, StorageError>(t),
        Err(e) => r == Err::<EncodedTerm, _>(StorageError::Corruption(e)),
    }
}

/// What a reader of quads gives for the result of a parse.
pub open spec fn quad_read_result(
    parsed: Result<EncodedQuad, CorruptionError>,
    r: Result<EncodedQuad, StorageError>,
) -> bool {
    match parsed {
        Ok(q) => r == Ok::<_, StorageError>(q),
        Err(e) => r == Err::<EncodedQuad, _>(StorageError::Corruption(e)),
    }
}

/// A source of bytes from which terms and quads are read front to back.
pub trait TermReader {
    /// The bytes that are not read yet.
    spec fn remaining(&self) -> Seq<u8>;

    /// Reads one term. After a failure nothing is known of the position.
    fn read_term(&mut self) -> (r: Result<EncodedTerm, StorageError>)
        ensures
            term_read_result(parse_term(old(self).remaining()), r),
            parse_term(old(self).remaining()) matches Ok((t, n)) ==> n <= old(
                self,
            ).remaining().len() && final(self).remaining() == old(self).remaining().skip(
                n as int,
            ),
    ;

    /// Reads a quad whose terms stand in the order of `Spog`.
    fn read_spog_quad(&mut self) -> (r: Result<EncodedQuad, StorageError>)
        ensures
            quad_read_result(parse_quad(QuadEncoding::Spog, old(self).remaining()), r),
            parse_terms(old(self).remaining(), QuadEncoding::Spog.arity()) matches Ok((terms, n))
                ==> final(self).remaining() == old(self).remaining().skip(n as int),
    {
        proof {
            reveal_with_fuel(parse_terms, 5);
        }
        let ghost s0 = self.remaining();
        let subject = self.read_term()?;
        let ghost s1 = self.remaining();
        let predicate = self.read_term()?;
        let ghost s2 = self.remaining();
        let object = self.read_term()?;
        let ghost s3 = self.remaining();
        let graph_name = self.read_term()?;
        let quad = EncodedQuad { subject, predicate, object, graph_name };
        proof {
            let terms = QuadEncoding::Spog.terms(quad);
            assert(parse_terms(old(self).remaining(), QuadEncoding::Spog.arity()) matches Ok((ts, n))
                && ts =~= terms);
            let taken = parse_terms(old(self).remaining(), QuadEncoding::Spog.arity())->Ok_0.1;
            assert(self.remaining() =~= old(self).remaining().skip(taken as int));
        }
        Ok(quad)
    }

    /// Reads a quad whose terms stand in the order of `Posg`.
    fn read_posg_quad(&mut self) -> (r: Result<EncodedQuad, StorageError>)
        ensures
            quad_read_result(parse_quad(QuadEncoding::Posg, old(self).remaining()), r),
            parse_terms(old(self).remaining(), QuadEncoding::Posg.arity()) matches Ok((terms, n))
                ==> final(self).remaining() == old(self).remaining().skip(n as int),
    {
        proof {
            reveal_with_fuel(parse_terms, 5);
        }
        let ghost s0 = self.remaining();
        let predicate = self.read_term()?;
        let ghost s1 = self.remaining();
        let object = self.read_term()?;
        let ghost s2 = self.remaining();
        let subject = self.read_term()?;
        let ghost s3 = self.remaining();
        let graph_name = self.read_term()?;
        let quad = EncodedQuad { subject, predicate, object, graph_name };
        proof {
            let terms = QuadEncoding::Posg.terms(quad);
            assert(parse_terms(old(self).remaining(), QuadEncoding::Posg.arity()) matches Ok((ts, n))
                && ts =~= terms);
            let taken = parse_terms(old(self).remaining(), QuadEncoding::Posg.arity())->Ok_0.1;
            assert(self.remaining() =~= old(self).remaining().skip(taken as int));
        }
        Ok(quad)
    }

    /// Reads a quad whose terms stand in the order of `Ospg`.
    fn read_ospg_quad(&mut self) -> (r: Result<EncodedQuad, StorageError>)
        ensures
            quad_read_result(parse_quad(QuadEncoding::Ospg, old(self).remaining()), r),
            parse_terms(old(self).remaining(), QuadEncoding::Ospg.arity()) matches Ok((terms, n))
                ==> final(self).remaining() == old(self).remaining().skip(n as int),
    {
        proof {
            reveal_with_fuel(parse_terms, 5);
        }
        let ghost s0 = self.remaining();
        let object = self.read_term()?;
        let ghost s1 = self.remaining();
        let subject = self.read_term()?;
        let ghost s2 = self.remaining();
        let predicate = self.read_term()?;
        let ghost s3 = self.remaining();
        let graph_name = self.read_term()?;
        let quad = EncodedQuad { subject, predicate, object, graph_name };
        proof {
            let terms = QuadEncoding::Ospg.terms(quad);
            assert(parse_terms(old(self).remaining(), QuadEncoding::Ospg.arity()) matches Ok((ts, n))
                && ts =~= terms);
            let taken = parse_terms(old(self).remaining(), QuadEncoding::Ospg.arity())->Ok_0.1;
            assert(self.remaining() =~= old(self).remaining().skip(taken as int));
        }
        Ok(quad)
    }

    /// Reads a quad whose terms stand in the order of `Gspo`.
    fn read_gspo_quad(&mut self) -> (r: Result<EncodedQuad, StorageError>)
        ensures
            quad_read_result(parse_quad(QuadEncoding::Gspo, old(self).remaining()), r),
            parse_terms(old(self).remaining(), QuadEncoding::Gspo.arity()) matches Ok((terms, n))
                ==> final(self).remaining() == old(self).remaining().skip(n as int),
    {
        proof {
            reveal_with_fuel(parse_terms, 5);
        }
        let ghost s0 = self.remaining();
        let graph_name = self.read_term()?;
        let ghost s1 = self.remaining();
        let subject = self.read_term()?;
        let ghost s2 = self.remaining();
        let predicate = self.read_term()?;
        let ghost s3 = self.remaining();
        let object = self.read_term()?;
        let quad = EncodedQuad { subject, predicate, object, graph_name };
        proof {
            let terms = QuadEncoding::Gspo.terms(quad);
            assert(parse_terms(old(self).remaining(), QuadEncoding::Gspo.arity()) matches Ok((ts, n))
                && ts =~= terms);
            let taken = parse_terms(old(self).remaining(), QuadEncoding::Gspo.arity())->Ok_0.1;
            assert(self.remaining() =~= old(self).remaining().skip(taken as int));
        }
        Ok(quad)
    }

    /// Reads a quad whose terms stand in the order of `Gpos`.
    fn read_gpos_quad(&mut self) -> (r: Result<EncodedQuad, StorageError>)
        ensures
            quad_read_result(parse_quad(QuadEncoding::Gpos, old(self).remaining()), r),
            parse_terms(old(self).remaining(), QuadEncoding::Gpos.arity()) matches Ok((terms, n))
                ==> final(self).remaining() == old(self).remaining().skip(n as int),
    {
        proof {
            reveal_with_fuel(parse_terms, 5);
        }
        let ghost s0 = self.remaining();
        let graph_name = self.read_term()?;
        let ghost s1 = self.remaining();
        let predicate = self.read_term()?;
        let ghost s2 = self.remaining();
        let object = self.read_term()?;
        let ghost s3 = self.remaining();
        let subject = self.read_term()?;
        let quad = EncodedQuad { subject, predicate, object, graph_name };
        proof {
            let terms = QuadEncoding::Gpos.terms(quad);
            assert(parse_terms(old(self).remaining(), QuadEncoding::Gpos.arity()) matches Ok((ts, n))
                && ts =~= terms);
            let taken = parse_terms(old(self).remaining(), QuadEncoding::Gpos.arity())->Ok_0.1;
            assert(self.remaining() =~= old(self).remaining().skip(taken as int));
        }
        Ok(quad)
    }

    /// Reads a quad whose terms stand in the order of `Gosp`.
    fn read_gosp_quad(&mut self) -> (r: Result<EncodedQuad, StorageError>)
        ensures
            quad_read_result(parse_quad(QuadEncoding::Gosp, old(self).remaining()), r),
            parse_terms(old(self).remaining(), QuadEncoding::Gosp.arity()) matches Ok((terms, n))
                ==> final(self).remaining() == old(self).remaining().skip(n as int),
    {
        proof {
            reveal_with_fuel(parse_terms, 5);
        }
        let ghost s0 = self.remaining();
        let graph_name = self.read_term()?;
        let ghost s1 = self.remaining();
        let object = self.read_term()?;
        let ghost s2 = self.remaining();
        let subject = self.read_term()?;
        let ghost s3 = self.remaining();
        let predicate = self.read_term()?;
        let quad = EncodedQuad { subject, predicate, object, graph_name };
        proof {
            let terms = QuadEncoding::Gosp.terms(quad);
            assert(parse_terms(old(self).remaining(), QuadEncoding::Gosp.arity()) matches Ok((ts, n))
                && ts =~= terms);
            let taken = parse_terms(old(self).remaining(), QuadEncoding::Gosp.arity())->Ok_0.1;
            assert(self.remaining() =~= old(self).remaining().skip(taken as int));
        }
        Ok(quad)
    }

    /// Reads a quad whose terms stand in the order of `Dspo`.
    fn read_dspo_quad(&mut self) -> (r: Result<EncodedQuad, StorageError>)
        ensures
            quad_read_result(parse_quad(QuadEncoding::Dspo, old(self).remaining()), r),
            parse_terms(old(self).remaining(), QuadEncoding::Dspo.arity()) matches Ok((terms, n))
                ==> final(self).remaining() == old(self).remaining().skip(n as int),
    {
        proof {
            reveal_with_fuel(parse_terms, 5);
        }
        let ghost s0 = self.remaining();
        let subject = self.read_term()?;
        let ghost s1 = self.remaining();
        let predicate = self.read_term()?;
        let ghost s2 = self.remaining();
        let object = self.read_term()?;
        let quad = EncodedQuad { subject, predicate, object, graph_name: EncodedTerm::DefaultGraph };
        proof {
            let terms = QuadEncoding::Dspo.terms(quad);
            assert(parse_terms(old(self).remaining(), QuadEncoding::Dspo.arity()) matches Ok((ts, n))
                && ts =~= terms);
            let taken = parse_terms(old(self).remaining(), QuadEncoding::Dspo.arity())->Ok_0.1;
            assert(self.remaining() =~= old(self).remaining().skip(taken as int));
        }
        Ok(quad)
    }

    /// Reads a quad whose terms stand in the order of `Dpos`.
    fn read_dpos_quad(&mut self) -> (r: Result<EncodedQuad, StorageError>)
        ensures
            quad_read_result(parse_quad(QuadEncoding::Dpos, old(self).remaining()), r),
            parse_terms(old(self).remaining(), QuadEncoding::Dpos.arity()) matches Ok((terms, n))
                ==> final(self).remaining() == old(self).remaining().skip(n as int),
    {
        proof {
            reveal_with_fuel(parse_terms, 5);
        }
        let ghost s0 = self.remaining();
        let predicate = self.read_term()?;
        let ghost s1 = self.remaining();
        let object = self.read_term()?;
        let ghost s2 = self.remaining();
        let subject = self.read_term()?;
        let quad = EncodedQuad { subject, predicate, object, graph_name: EncodedTerm::DefaultGraph };
        proof {
            let terms = QuadEncoding::Dpos.terms(quad);
            assert(parse_terms(old(self).remaining(), QuadEncoding::Dpos.arity()) matches Ok((ts, n))
                && ts =~= terms);
            let taken = parse_terms(old(self).remaining(), QuadEncoding::Dpos.arity())->Ok_0.1;
            assert(self.remaining() =~= old(self).remaining().skip(taken as int));
        }
        Ok(quad)
    }

    /// Reads a quad whose terms stand in the order of `Dosp`.
    fn read_dosp_quad(&mut self) -> (r: Result<EncodedQuad, StorageError>)
        ensures
            quad_read_result(parse_quad(QuadEncoding::Dosp, old(self).remaining()), r),
            parse_terms(old(self).remaining(), QuadEncoding::Dosp.arity()) matches Ok((terms, n))
                ==> final(self).remaining() == old(self).remaining().skip(n as int),
    {
        proof {
            reveal_with_fuel(parse_terms, 5);
        }
        let ghost s0 = self.remaining();
        let object = self.read_term()?;
        let ghost s1 = self.remaining();
        let subject = self.read_term()?;
        let ghost s2 = self.remaining();
        let predicate = self.read_term()?;
        let quad = EncodedQuad { subject, predicate, object, graph_name: EncodedTerm::DefaultGraph };
        proof {
            let terms = QuadEncoding::Dosp.terms(quad);
            assert(parse_terms(old(self).remaining(), QuadEncoding::Dosp.arity()) matches Ok((ts, n))
                && ts =~= terms);
            let taken = parse_terms(old(self).remaining(), QuadEncoding::Dosp.arity())->Ok_0.1;
            assert(self.remaining() =~= old(self).remaining().skip(taken as int));
        }
        Ok(quad)
    }

}

/// A reader over a byte slice.
pub struct Cursor<'a> {
    buffer: &'a [u8],
    position: usize,
}

impl<'a> Cursor<'a> {
    /// A reader at the start of `buffer`.
    pub fn new(buffer: &'a [u8]) -> (c: Cursor<'a>)
        ensures
            c.remaining() == buffer@,
            c.position() == 0,
    {
        let c = Cursor { buffer, position: 0 };
        proof {
            assert(buffer@.skip(0) =~= buffer@);
        }
        c
    }

    /// The number of bytes read so far.
    pub closed spec fn position(&self) -> nat {
        self.position as nat
    }

    /// The invariant of a cursor: its position lies within its buffer.
    #[verifier::type_invariant]
    spec fn inv(&self) -> bool {
        self.position <= self.buffer@.len()
    }
}

impl<'a> TermReader for Cursor<'a> {
    closed spec fn remaining(&self) -> Seq<u8> {
        self.buffer@.skip(self.position as int)
    }

    fn read_term(&mut self) -> (r: Result<EncodedTerm, StorageError>) {
        let buffer = self.buffer;
        let position: usize = self.position;
        proof {
            use_type_invariant(&*self);
            lemma_parse_term_consumes(buffer@.skip(position as int));
        }
        match read_term_at(buffer, position) {
            Ok((term, next)) => {
                proof {
                    assert(buffer@.skip(position as int).skip(next - position) =~= buffer@.skip(
                        next as int,
                    ));
                }
                self.position = next;
                Ok(term)
            },
            Err(e) => Err(e),
        }
    }
}

impl QuadEncoding {
    /// Decodes a key of this encoding. Bytes that follow the last term are
    /// not looked at.
    pub fn decode(self, buffer: &[u8]) -> (r: Result<EncodedQuad, StorageError>)
        ensures
            quad_read_result(parse_quad(self, buffer@), r),
    {
        let mut cursor = Cursor::new(buffer);
        match self {
            QuadEncoding::Spog => cursor.read_spog_quad(),
            QuadEncoding::Posg => cursor.read_posg_quad(),
            QuadEncoding::Ospg => cursor.read_ospg_quad(),
            QuadEncoding::Gspo => cursor.read_gspo_quad(),
            QuadEncoding::Gpos => cursor.read_gpos_quad(),
            QuadEncoding::Gosp => cursor.read_gosp_quad(),
            QuadEncoding::Dspo => cursor.read_dspo_quad(),
            QuadEncoding::Dpos => cursor.read_dpos_quad(),
            QuadEncoding::Dosp => cursor.read_dosp_quad(),
        }
    }
}

/// Decodes the term at the start of `buffer`. Bytes that follow the term
/// are not looked at.
pub fn decode_term(buffer: &[u8]) -> (r: Result<EncodedTerm, StorageError>)
    ensures
        term_read_result(parse_term(buffer@), r),
{
    Cursor::new(buffer).read_term()
}

/// The offset that two bytes other than those of an absent offset hold
/// is not `-1`.
proof fn lemma_offset_of_bytes(o: Seq<u8>)
    requires
        o.len() == 2,
        o != no_offset_bytes(),
    ensures
        i16_of(o) != -1i16,
{
    let v = be_value(o);
    lemma_be_value_bound(o);
    lemma_pow256_values();
    lemma_be_bytes_of_value(o);
    if i16_of(o) == -1i16 {
        let u = v as u16;
        assert(u as i16 == -1i16 ==> u == 65535u16) by (bit_vector);
        assert(v == 65535);
        reveal_with_fuel(be_bytes, 3);
        assert(be_bytes(65535, 2) =~= no_offset_bytes());
    }
}

/// A term that a type byte and its payload stand for is well formed.
proof fn lemma_decoded_payload_wf(tag: u8, p: Seq<u8>)
    requires
        payload_width(tag) == Some(p.len()),
    ensures
        decode_payload(tag, p) matches Ok(t) ==> t.wf(),
{
    reveal(decode_payload);
    let a = p.subrange(0, 16);
    let b = p.subrange(16, 32);
    if p.len() == 16 {
        lemma_small_string_exists(p);
    }
    if p.len() == 32 {
        lemma_small_string_exists(a);
        lemma_small_string_exists(b);
    }
    if p.len() == 18 {
        if p.subrange(16, 18) != no_offset_bytes() {
            lemma_offset_of_bytes(p.subrange(16, 18));
        }
    }
}

/// A term that is read is well formed.
#[verifier::rlimit(30)]
pub proof fn lemma_parsed_term_wf(s: Seq<u8>)
    ensures
        parse_term(s) matches Ok((t, n)) ==> t.wf(),
    decreases s.len(),
{
    reveal(parse_term);
    if s.len() > 0 {
        if s[0] == TYPE_TRIPLE {
            lemma_parse_term_consumes(s.skip(1));
            lemma_parsed_term_wf(s.skip(1));
            if let Ok((subject, n1)) = parse_term(s.skip(1)) {
                if 1 + n1 <= s.len() {
                    lemma_parse_term_consumes(s.skip(1 + n1 as int));
                    lemma_parsed_term_wf(s.skip(1 + n1 as int));
                    if let Ok((predicate, n2)) = parse_term(s.skip(1 + n1 as int)) {
                        if 1 + n1 + n2 <= s.len() {
                            lemma_parsed_term_wf(s.skip(1 + n1 as int + n2 as int));
                        }
                    }
                }
            }
        } else {
            match payload_width(s[0]) {
                Some(w) => {
                    if s.len() >= 1 + w {
                        lemma_decoded_payload_wf(s[0], s.subrange(1, 1 + w as int));
                    }
                },
                None => {},
            }
        }
    }
}

/// The terms that are read are well formed.
pub proof fn lemma_parsed_terms_wf(s: Seq<u8>, count: nat)
    ensures
        parse_terms(s, count) matches Ok((terms, n)) ==> forall|i: int|
            0 <= i < terms.len() ==> (#[trigger] terms[i]).wf(),
    decreases count,
{
    if count > 0 {
        lemma_parsed_term_wf(s);
        lemma_parse_term_consumes(s);
        if let Ok((first, n)) = parse_term(s) {
            lemma_parsed_terms_wf(s.skip(n as int), (count - 1) as nat);
        }
    }
}

/// A quad that is read is well formed and belongs to the indexes of the
/// order in which it was read.
pub proof fn lemma_parsed_quad_wf(encoding: QuadEncoding, s: Seq<u8>)
    ensures
        parse_quad(encoding, s) matches Ok(q) ==> q.wf() && encoding.holds(q),
{
    lemma_parsed_terms_wf(s, encoding.arity());
    lemma_parse_terms_consumes(s, encoding.arity());
    if let Ok((terms, n)) = parse_terms(s, encoding.arity()) {
        if !encoding.is_default_graph_order() {
            assert(terms[0].wf());
            assert(terms[1].wf());
            assert(terms[2].wf());
            assert(terms[3].wf());
        } else {
            assert(terms[0].wf());
            assert(terms[1].wf());
            assert(terms[2].wf());
        }
    }
}

/// Whether an error is one of those that reading a term gives.
pub open spec fn term_error(e: CorruptionError) -> bool {
    e == CorruptionError::InvalidTypeId || e == CorruptionError::UnexpectedEnd || e
        == CorruptionError::BadSmallString
}

/// Reading a term fails in one of three ways.
#[verifier::rlimit(30)]
pub proof fn lemma_parse_term_error(s: Seq<u8>)
    ensures
        parse_term(s) matches Err(e) ==> term_error(e),
    decreases s.len(),
{
    reveal(parse_term);
    reveal(decode_payload);
    if s.len() > 0 {
        if s[0] == TYPE_TRIPLE {
            lemma_parse_term_consumes(s.skip(1));
            lemma_parse_term_error(s.skip(1));
            if let Ok((subject, n1)) = parse_term(s.skip(1)) {
                if 1 + n1 <= s.len() {
                    lemma_parse_term_consumes(s.skip(1 + n1 as int));
                    lemma_parse_term_error(s.skip(1 + n1 as int));
                    if let Ok((predicate, n2)) = parse_term(s.skip(1 + n1 as int)) {
                        if 1 + n1 + n2 <= s.len() {
                            lemma_parse_term_error(s.skip(1 + n1 as int + n2 as int));
                        }
                    }
                }
            }
        }
    }
}

/// Reading terms fails in one of three ways.
pub proof fn lemma_parse_terms_error(s: Seq<u8>, count: nat)
    ensures
        parse_terms(s, count) matches Err(e) ==> term_error(e),
    decreases count,
{
    if count > 0 {
        lemma_parse_term_error(s);
        lemma_parse_term_consumes(s);
        if let Ok((first, n)) = parse_term(s) {
            lemma_parse_terms_error(s.skip(n as int), (count - 1) as nat);
        }
    }
}

/// Decoding a key fails in one of three ways.
pub proof fn lemma_parse_quad_error(encoding: QuadEncoding, s: Seq<u8>)
    ensures
        parse_quad(encoding, s) matches Err(e) ==> term_error(e),
{
    lemma_parse_terms_error(s, encoding.arity());
}

} // verus!
