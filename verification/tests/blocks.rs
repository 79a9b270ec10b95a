//! Tests for object identifiers, the block model and the recursive codec.
use num_bigint::BigInt;
use num_bigint::BigUint;

use simple_asn1::decode;
use simple_asn1::encode;
use simple_asn1::ASN1Block;
use simple_asn1::ASN1Class;
use simple_asn1::ASN1DateTime;
use simple_asn1::ASN1DecodeErr;
use simple_asn1::ASN1EncodeErr;
use simple_asn1::OID;

fn oid_of(parts: &[u64]) -> OID {
    OID::new(parts.iter().map(|p| BigUint::from(*p)).collect())
}

#[test]
fn oid_as_raw_boundary_cases() {
    // 40 * 2 + 175 = 255 still fits one byte
    let raw = oid_of(&[2, 175, 7]).as_raw().unwrap();
    assert_eq!(raw[0], 255);
    assert_eq!(
        oid_of(&[2, 176]).as_raw(),
        Err(ASN1EncodeErr::ObjectIdentVal2TooLarge)
    );
    assert_eq!(
        oid_of(&[1, 40]).as_raw(),
        Err(ASN1EncodeErr::ObjectIdentVal2TooLarge)
    );
    assert_eq!(
        oid_of(&[3, 0]).as_raw(),
        Err(ASN1EncodeErr::ObjectIdentVal1TooLarge)
    );
    assert_eq!(
        oid_of(&[1]).as_raw(),
        Err(ASN1EncodeErr::ObjectIdentHasTooFewFields)
    );
}

#[test]
fn oid_rsa_round_trips() {
    let rsa = oid_of(&[1, 2, 840, 113549, 1, 1, 1]);
    let raw = rsa.as_raw().unwrap();
    assert_eq!(raw, vec![0x2A, 0x86, 0x48, 0x86, 0xF7, 0x0D, 0x01, 0x01, 0x01]);
    let back = decode::oid_from_raw(&raw).unwrap();
    assert_eq!(back.as_vec(), Ok(vec![1u64, 2, 840, 113549, 1, 1, 1]));
    assert!(back == rsa);
}

#[test]
fn oid_as_vec_overflow() {
    let mut parts = vec![BigUint::from(1u8), BigUint::from(2u8)];
    parts.push(BigUint::from(1u8) << 70);
    let oid = OID::new(parts);
    assert_eq!(oid.as_vec(), Err(ASN1DecodeErr::Overflow));
}

#[test]
fn oid_equality_is_componentwise() {
    assert!(oid_of(&[1, 2, 3]) == oid_of(&[1, 2, 3]));
    assert!(oid_of(&[1, 2, 3]) != oid_of(&[1, 2, 4]));
    assert!(oid_of(&[1, 2, 3]) != oid_of(&[1, 2]));
}

#[test]
fn block_equality_ignores_offsets() {
    assert_eq!(ASN1Block::Boolean(0, true), ASN1Block::Boolean(99, true));
    assert_ne!(ASN1Block::Boolean(0, true), ASN1Block::Boolean(0, false));
    assert_ne!(
        ASN1Block::Boolean(0, true),
        ASN1Block::Integer(0, BigInt::from(1))
    );
    assert_eq!(
        ASN1Block::Sequence(0, vec![ASN1Block::Null(7)]),
        ASN1Block::Sequence(3, vec![ASN1Block::Null(9)])
    );
}

#[test]
fn block_class_and_offset_are_total() {
    let b = ASN1Block::Explicit(
        ASN1Class::ContextSpecific,
        12,
        BigUint::from(0u8),
        Box::new(ASN1Block::Null(14)),
    );
    assert_eq!(b.class(), ASN1Class::ContextSpecific);
    assert_eq!(b.offset(), 12);
    assert_eq!(ASN1Block::Null(3).class(), ASN1Class::Universal);
    assert_eq!(ASN1Block::Null(3).offset(), 3);
}

#[test]
fn sequence_scenario_encodes_and_decodes() {
    let seq = ASN1Block::Sequence(
        0,
        vec![
            ASN1Block::Boolean(0, true),
            ASN1Block::OctetString(0, vec![0xDE, 0xAD]),
        ],
    );
    let bytes = encode::to_der(&seq).unwrap();
    assert_eq!(
        bytes,
        vec![0x30, 0x07, 0x01, 0x01, 0xFF, 0x04, 0x02, 0xDE, 0xAD]
    );
    let back = decode::from_der(&bytes).unwrap();
    assert_eq!(back.len(), 1);
    assert_eq!(back[0], seq);
}

#[test]
fn truncated_prefixes_are_incomplete() {
    let seq = ASN1Block::Sequence(
        0,
        vec![
            ASN1Block::Boolean(0, true),
            ASN1Block::OctetString(0, vec![0xDE, 0xAD]),
        ],
    );
    let bytes = encode::to_der(&seq).unwrap();
    for cut in 1..bytes.len() {
        let r = decode::from_der(&bytes[..bytes.len() - cut]);
        assert_eq!(r, Err(ASN1DecodeErr::Incomplete), "cut {}", cut);
    }
}

#[test]
fn empty_buffer_is_reported() {
    assert_eq!(decode::from_der(&[]), Err(ASN1DecodeErr::EmptyBuffer));
}

#[test]
fn integer_blocks_round_trip() {
    for n in [0i64, 1, -1, 127, 128, -128, -129, 255, -256, 1 << 40, -(1 << 40)] {
        let b = ASN1Block::Integer(0, BigInt::from(n));
        let bytes = encode::to_der(&b).unwrap();
        let back = decode::from_der(&bytes).unwrap();
        assert_eq!(back[0], b, "n = {}", n);
    }
}

#[test]
fn integer_negative_has_twos_complement_body() {
    let b = ASN1Block::Integer(0, BigInt::from(-256));
    assert_eq!(encode::to_der(&b).unwrap(), vec![0x02, 0x02, 0xFF, 0x00]);
}

#[test]
fn nested_tree_round_trips() {
    let tree = ASN1Block::Sequence(
        0,
        vec![
            ASN1Block::Explicit(
                ASN1Class::ContextSpecific,
                0,
                BigUint::from(0u8),
                Box::new(ASN1Block::Boolean(0, false)),
            ),
            ASN1Block::UTF8String(0, String::from("héllo")),
            ASN1Block::PrintableString(0, String::from("Test 123")),
            ASN1Block::IA5String(0, String::from("a@b.example")),
            ASN1Block::TeletexString(0, String::from("tx")),
            ASN1Block::UniversalString(0, String::from("u")),
            ASN1Block::BMPString(0, String::from("bmp")),
            ASN1Block::Integer(0, BigInt::from(-123456)),
            ASN1Block::BitString(0, 12, vec![0xCA, 0xF0]),
            ASN1Block::Null(0),
            ASN1Block::ObjectIdentifier(0, oid_of(&[1, 2, 840, 113549, 1, 1, 1])),
            ASN1Block::SetOf(0, vec![ASN1Block::OctetString(0, vec![1, 2, 3])]),
            ASN1Block::UTCTime(
                0,
                ASN1DateTime {
                    year: 1999,
                    month: 12,
                    day: 31,
                    hour: 23,
                    minute: 59,
                    second: 59,
                },
            ),
            ASN1Block::GeneralizedTime(
                0,
                ASN1DateTime {
                    year: 2024,
                    month: 2,
                    day: 29,
                    hour: 6,
                    minute: 30,
                    second: 0,
                },
            ),
            ASN1Block::Unknown(
                ASN1Class::Private,
                false,
                0,
                BigUint::from(99u8),
                vec![9, 8, 7],
            ),
        ],
    );
    let bytes = encode::to_der(&tree).unwrap();
    let back = decode::from_der(&bytes).unwrap();
    assert_eq!(back.len(), 1);
    assert_eq!(back[0], tree);
}

#[test]
fn oid_inside_block_fails_encoding_when_invalid() {
    let b = ASN1Block::Sequence(0, vec![ASN1Block::ObjectIdentifier(0, oid_of(&[3, 0]))]);
    assert_eq!(
        encode::to_der(&b),
        Err(ASN1EncodeErr::ObjectIdentVal1TooLarge)
    );
}

#[test]
fn boolean_bad_length_is_reported() {
    let bytes = [0x01u8, 0x02, 0x00, 0x00];
    assert_eq!(
        decode::from_der(&bytes),
        Err(ASN1DecodeErr::BadBooleanLength(2))
    );
}

#[test]
fn boolean_decodes_nonzero_as_true() {
    let back = decode::from_der(&[0x01, 0x01, 0x01]).unwrap();
    assert_eq!(back[0], ASN1Block::Boolean(0, true));
    let back = decode::from_der(&[0x01, 0x01, 0x00]).unwrap();
    assert_eq!(back[0], ASN1Block::Boolean(0, false));
}

#[test]
fn bit_string_bodies() {
    let b = ASN1Block::BitString(0, 12, vec![0xCA, 0xF0]);
    let bytes = encode::to_der(&b).unwrap();
    assert_eq!(bytes, vec![0x03, 0x03, 0x04, 0xCA, 0xF0]);
    let empty = ASN1Block::BitString(0, 0, vec![]);
    assert_eq!(encode::to_der(&empty).unwrap(), vec![0x03, 0x01, 0x00]);
    assert_eq!(decode::from_der(&[0x03, 0x01, 0x00]).unwrap()[0], empty);
}

#[test]
fn bit_string_invalid_counts_are_reported() {
    assert_eq!(
        decode::from_der(&[0x03, 0x00]),
        Err(ASN1DecodeErr::InvalidBitStringLength(-1))
    );
    assert_eq!(
        decode::from_der(&[0x03, 0x02, 0x09, 0x00]),
        Err(ASN1DecodeErr::InvalidBitStringLength(9))
    );
}

#[test]
fn utf8_failures_are_reported() {
    assert_eq!(
        decode::from_der(&[0x0C, 0x01, 0xFF]),
        Err(ASN1DecodeErr::UTF8DecodeFailure)
    );
    assert_eq!(
        decode::from_der(&[0x13, 0x01, 0xFF]),
        Err(ASN1DecodeErr::PrintableStringDecodeFailure)
    );
}

#[test]
fn utc_time_decodes_with_pivot() {
    // 991231235959Z
    let body = b"991231235959Z";
    let mut bytes = vec![0x17, body.len() as u8];
    bytes.extend_from_slice(body);
    let back = decode::from_der(&bytes).unwrap();
    assert_eq!(
        back[0],
        ASN1Block::UTCTime(
            0,
            ASN1DateTime { year: 1999, month: 12, day: 31, hour: 23, minute: 59, second: 59 }
        )
    );
    // 200229063000Z maps below the pivot
    let body = b"240229063000Z";
    let mut bytes = vec![0x17, body.len() as u8];
    bytes.extend_from_slice(body);
    let back = decode::from_der(&bytes).unwrap();
    assert_eq!(
        back[0],
        ASN1Block::UTCTime(
            0,
            ASN1DateTime { year: 2024, month: 2, day: 29, hour: 6, minute: 30, second: 0 }
        )
    );
}

#[test]
fn invalid_dates_are_reported() {
    let body = b"991331235959Z"; // month 13
    let mut bytes = vec![0x17, body.len() as u8];
    bytes.extend_from_slice(body);
    match decode::from_der(&bytes) {
        Err(ASN1DecodeErr::InvalidDateValue(s)) => assert_eq!(s, "991331235959Z"),
        other => panic!("expected InvalidDateValue, got {:?}", other),
    }
}

#[test]
fn unknown_blocks_preserve_content() {
    let b = ASN1Block::Unknown(
        ASN1Class::Application,
        false,
        0,
        BigUint::from(7u8),
        vec![1, 2, 3],
    );
    let bytes = encode::to_der(&b).unwrap();
    assert_eq!(bytes, vec![0x47, 0x03, 0x01, 0x02, 0x03]);
    assert_eq!(decode::from_der(&bytes).unwrap()[0], b);
}

#[test]
fn high_tag_unknown_round_trips() {
    let b = ASN1Block::Unknown(
        ASN1Class::Private,
        true,
        0,
        BigUint::from(1000u16),
        vec![0xAB],
    );
    let bytes = encode::to_der(&b).unwrap();
    assert_eq!(decode::from_der(&bytes).unwrap()[0], b);
}

#[test]
fn long_content_uses_long_form_length() {
    let b = ASN1Block::OctetString(0, vec![0x5Au8; 200]);
    let bytes = encode::to_der(&b).unwrap();
    assert_eq!(bytes[0], 0x04);
    assert_eq!(bytes[1], 0x81);
    assert_eq!(bytes[2], 200);
    assert_eq!(decode::from_der(&bytes).unwrap()[0], b);
}

#[test]
fn multiple_top_level_blocks_decode_in_order() {
    let a = ASN1Block::Boolean(0, true);
    let b = ASN1Block::Null(0);
    let mut bytes = encode::to_der(&a).unwrap();
    bytes.extend(encode::to_der(&b).unwrap());
    let back = decode::from_der(&bytes).unwrap();
    assert_eq!(back.len(), 2);
    assert_eq!(back[0], a);
    assert_eq!(back[1], b);
    assert_eq!(back[1].offset(), 3);
}

#[test]
fn datetime_bodies_round_trip() {
    let d = ASN1DateTime {
        year: 2024,
        month: 2,
        day: 29,
        hour: 6,
        minute: 30,
        second: 0,
    };
    assert_eq!(d.to_gen_bytes(), b"20240229063000Z".to_vec());
    assert_eq!(ASN1DateTime::from_gen_bytes(&d.to_gen_bytes()), Some(d));
    let u = ASN1DateTime {
        year: 1999,
        month: 12,
        day: 31,
        hour: 23,
        minute: 59,
        second: 59,
    };
    assert_eq!(u.to_utc_bytes(), b"991231235959Z".to_vec());
    assert_eq!(ASN1DateTime::from_utc_bytes(&u.to_utc_bytes()), Some(u));
    assert_eq!(ASN1DateTime::from_utc_bytes(b"990229"), None);
}

#[test]
fn as_vec_narrower_widths() {
    let oid = oid_of(&[1, 2, 840]);
    assert_eq!(oid.as_vec_u32(), Ok(vec![1u32, 2, 840]));
    assert_eq!(oid.as_vec_u8(), Err(ASN1DecodeErr::Overflow));
    assert_eq!(oid_of(&[1, 2, 3]).as_vec_u8(), Ok(vec![1u8, 2, 3]));
}
