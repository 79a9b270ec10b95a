//! Tests for the TLV primitive layer: class, length, base-128 and tag.
use num_bigint::BigUint;

use simple_asn1::decode;
use simple_asn1::encode;
use simple_asn1::ASN1Class;
use simple_asn1::ASN1DecodeErr;

#[test]
fn class_codec_is_a_bijection() {
    let classes = [
        ASN1Class::Universal,
        ASN1Class::Application,
        ASN1Class::ContextSpecific,
        ASN1Class::Private,
    ];
    let bytes = [0x00u8, 0x40, 0x80, 0xC0];
    for (c, b) in classes.iter().zip(bytes.iter()) {
        assert_eq!(encode::class(*c), *b);
        assert_eq!(decode::class(*b), Ok(*c));
    }
    assert_eq!(decode::class(0x37), Ok(ASN1Class::Universal));
    assert_eq!(decode::class(0x7F), Ok(ASN1Class::Application));
    assert_eq!(decode::class(0xBF), Ok(ASN1Class::ContextSpecific));
    assert_eq!(decode::class(0xFF), Ok(ASN1Class::Private));
}

#[test]
fn length_short_form_is_one_byte() {
    assert_eq!(encode::len(0), vec![0x00]);
    assert_eq!(encode::len(5), vec![0x05]);
    assert_eq!(encode::len(127), vec![0x7F]);
}

#[test]
fn length_128_encodes_as_81_80() {
    assert_eq!(encode::len(128), vec![0x81, 0x80]);
}

#[test]
fn length_round_trips() {
    for l in [0usize, 1, 127, 128, 129, 255, 256, 65535, 65536, 1 << 31] {
        let e = encode::len(l);
        let mut idx = 0usize;
        assert_eq!(decode::length(&e, &mut idx), Ok(l));
        assert_eq!(idx, e.len());
    }
}

#[test]
fn length_rejects_counts_over_pointer_width() {
    let buf = [0x89u8, 1, 2, 3, 4, 5, 6, 7, 8, 9];
    let mut idx = 0usize;
    assert_eq!(
        decode::length(&buf, &mut idx),
        Err(ASN1DecodeErr::LengthTooLarge(9))
    );
}

#[test]
fn length_incomplete_inputs() {
    let mut idx = 0usize;
    assert_eq!(decode::length(&[], &mut idx), Err(ASN1DecodeErr::Incomplete));
    let mut idx = 0usize;
    assert_eq!(
        decode::length(&[0x82, 0x01], &mut idx),
        Err(ASN1DecodeErr::Incomplete)
    );
}

#[test]
fn base127_zero_is_one_zero_byte() {
    assert_eq!(encode::base127(&BigUint::from(0u8)), vec![0x00]);
}

#[test]
fn base127_known_encodings() {
    assert_eq!(encode::base127(&BigUint::from(127u8)), vec![0x7F]);
    assert_eq!(encode::base127(&BigUint::from(128u8)), vec![0x81, 0x00]);
    assert_eq!(encode::base127(&BigUint::from(300u16)), vec![0x82, 0x2C]);
}

#[test]
fn base127_round_trips() {
    let big = BigUint::from(1u8) << 100;
    let cases = [
        BigUint::from(0u8),
        BigUint::from(1u8),
        BigUint::from(127u8),
        BigUint::from(128u8),
        BigUint::from(300u16),
        BigUint::from(113549u32),
        big,
    ];
    for n in cases.iter() {
        let e = encode::base127(n);
        let mut idx = 0usize;
        assert_eq!(decode::base127(&e, &mut idx), Ok(n.clone()));
        assert_eq!(idx, e.len());
    }
}

#[test]
fn base127_incomplete_without_terminator() {
    let mut idx = 0usize;
    assert_eq!(
        decode::base127(&[0x81], &mut idx),
        Err(ASN1DecodeErr::Incomplete)
    );
    let mut idx = 0usize;
    assert_eq!(decode::base127(&[], &mut idx), Err(ASN1DecodeErr::Incomplete));
}

#[test]
fn tag_round_trips_all_classes_and_flags() {
    let classes = [
        ASN1Class::Universal,
        ASN1Class::Application,
        ASN1Class::ContextSpecific,
        ASN1Class::Private,
    ];
    for c in classes.iter() {
        for constructed in [false, true] {
            for t in [0u64, 1, 16, 30, 31, 127, 128, 1000, 113549] {
                let tn = BigUint::from(t);
                let e = encode::tag(*c, constructed, &tn);
                let mut idx = 0usize;
                let (dt, dcon, dcls) = decode::tag(&e, &mut idx).unwrap();
                assert_eq!(dt, tn);
                assert_eq!(dcon, constructed);
                assert_eq!(dcls, *c);
                assert_eq!(idx, e.len());
            }
        }
    }
}

#[test]
fn tag_single_byte_form_below_31() {
    let e = encode::tag(ASN1Class::Universal, true, &BigUint::from(16u8));
    assert_eq!(e, vec![0x30]);
    let e = encode::tag(ASN1Class::ContextSpecific, false, &BigUint::from(2u8));
    assert_eq!(e, vec![0x82]);
}

#[test]
fn tag_high_form_from_31_on() {
    let e = encode::tag(ASN1Class::Universal, false, &BigUint::from(31u8));
    assert_eq!(e, vec![0x1F, 0x1F]);
    let e = encode::tag(ASN1Class::Application, true, &BigUint::from(1000u16));
    assert_eq!(e, vec![0x7F, 0x87, 0x68]);
}

#[test]
fn tag_incomplete_inputs() {
    let mut idx = 0usize;
    assert_eq!(decode::tag(&[], &mut idx), Err(ASN1DecodeErr::Incomplete));
    // high-tag-number form whose continuation never terminates
    let mut idx = 0usize;
    assert_eq!(
        decode::tag(&[0x1F, 0x81], &mut idx),
        Err(ASN1DecodeErr::Incomplete)
    );
}

#[test]
fn asn1_string_forced_single_byte() {
    let e = encode::asn1_string(19, true, ASN1Class::Universal, "AB").unwrap();
    assert_eq!(e, vec![0x13, 0x02, 0x41, 0x42]);
}

#[test]
fn asn1_string_utf8_body() {
    let e = encode::asn1_string(12, false, ASN1Class::Universal, "é").unwrap();
    assert_eq!(e, vec![0x0C, 0x02, 0xC3, 0xA9]);
}
