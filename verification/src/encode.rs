//! The encoding half of the TLV primitive layer, together with the
//! specification-level byte models that the decoding half is proved against.
use vstd::prelude::*;
use vstd::layout::size_of;
use vstd::utf8::encode_utf8;

use crate::asn1_data_types::gen_body;
use crate::asn1_data_types::utc_body;
use crate::asn1_data_types::ASN1Block;
use crate::asn1_data_types::ASN1Class;
use crate::bignum::big_from_u8;
use crate::bignum::bigint_to_signed_bytes;
use crate::bignum::int_val;
use crate::bignum::sbe_of;
use crate::bignum::big_is_zero;
use crate::bignum::big_rem128;
use crate::bignum::big_shr7;
use crate::bignum::big_to_u8;
use crate::bignum::big_val;
use crate::errors::ASN1EncodeErr;
use crate::oid::oid_enc;
use crate::oid::oid_encodable;

verus! {

/// 256 raised to `k`: the number of values `k` bytes can hold.
pub open spec fn pow256(k: nat) -> nat
    decreases k,
{
    if k == 0 {
        1
    } else {
        256 * pow256((k - 1) as nat)
    }
}

/// The byte a class contributes to a tag byte: the class in the top 2 bits.
pub open spec fn class_byte(c: ASN1Class) -> u8 {
    match c {
        ASN1Class::Universal => 0x00,
        ASN1Class::Application => 0x40,
        ASN1Class::ContextSpecific => 0x80,
        ASN1Class::Private => 0xC0,
    }
}

/// The minimal big-endian byte encoding of `n`; zero encodes as no bytes.
pub open spec fn be_bytes(n: nat) -> Seq<u8>
    decreases n,
{
    if n == 0 {
        Seq::empty()
    } else {
        be_bytes(n / 256) + seq![(n % 256) as u8]
    }
}

/// The leading base-128 groups of a tag number or object-identifier
/// component: 7 value bits per byte, continuation bit set on every byte.
pub open spec fn b127_enc_hi(m: nat) -> Seq<u8>
    recommends
        m > 0,
    decreases m,
{
    if m < 128 {
        seq![(m + 128) as u8]
    } else {
        b127_enc_hi(m / 128) + seq![(m % 128 + 128) as u8]
    }
}

/// The base-128 encoding of `n`: minimal big-endian 7-bit groups, the
/// continuation bit set on every group but the last; zero encodes as `0x00`.
pub open spec fn b127_enc(n: nat) -> Seq<u8> {
    if n < 128 {
        seq![n as u8]
    } else {
        b127_enc_hi(n / 128) + seq![(n % 128) as u8]
    }
}

/// The length field for a content length `n`: short form below 128, long
/// form (count byte, then minimal big-endian bytes) from 128 on.
pub open spec fn len_enc(n: nat) -> Seq<u8> {
    if n < 128 {
        seq![n as u8]
    } else {
        seq![(128 + be_bytes(n).len()) as u8] + be_bytes(n)
    }
}

/// The tag field for a `(class, constructed, tag number)` triple: one byte
/// below 31, otherwise a lead byte with tag bits `11111` followed by the
/// base-128 groups of the tag number.
pub open spec fn tag_enc(c: ASN1Class, constructed: bool, t: nat) -> Seq<u8> {
    let cb: nat = class_byte(c) as nat + if constructed {
        32nat
    } else {
        0nat
    };
    if t < 31 {
        seq![(cb + t) as u8]
    } else {
        seq![(cb + 31) as u8] + b127_enc(t)
    }
}

/// A character sequence forced to one byte per character: each code point
/// truncated to its low 8 bits.
pub open spec fn forced_bytes(s: Seq<char>) -> Seq<u8> {
    Seq::new(s.len(), |i: int| ((s[i] as u32) % 256) as u8)
}

/// The body of a string block: the text's UTF-8 bytes, or one byte per
/// character when the subtype's character set asks for it.
pub open spec fn string_body(force_chars: bool, s: Seq<char>) -> Seq<u8> {
    if force_chars {
        forced_bytes(s)
    } else {
        encode_utf8(s)
    }
}

/// `be_bytes` never needs more bytes than bound the value.
pub proof fn lemma_be_bytes_len(n: nat, k: nat)
    requires
        n < pow256(k),
    ensures
        be_bytes(n).len() <= k,
    decreases k,
{
    if n > 0 {
        if k == 0 {
        } else {
            assert(n < 256 * pow256((k - 1) as nat));
            vstd::arithmetic::div_mod::lemma_multiply_divide_lt(n as int, 256, pow256((k - 1) as nat) as int);
            lemma_be_bytes_len(n / 256, (k - 1) as nat);
        }
    }
}

/// `pow256` grows with its exponent.
pub proof fn lemma_pow256_increases(a: nat, b: nat)
    requires
        a <= b,
    ensures
        pow256(a) <= pow256(b),
    decreases b,
{
    if a < b {
        lemma_pow256_increases(a, (b - 1) as nat);
    }
}

/// A `usize` value is bounded by eight bytes' worth of values.
pub proof fn lemma_usize_bound(x: usize)
    ensures
        x < pow256(8),
        pow256(size_of::<usize>()) - 1 == usize::MAX,
        size_of::<usize>() <= 8,
{
    vstd::layout::unsigned_int_max_values();
    lemma_pow256_is_pow(8);
    lemma_pow256_is_pow(size_of::<usize>());
    reveal_with_fuel(pow256, 9);
    assert(pow256(8) == 0x1_0000_0000_0000_0000);
    lemma_pow256_increases(size_of::<usize>(), 8);
}

/// `pow256` agrees with the general power function from vstd.
pub proof fn lemma_pow256_is_pow(k: nat)
    ensures
        pow256(k) == vstd::arithmetic::power::pow(256, k),
    decreases k,
{
    reveal(vstd::arithmetic::power::pow);
    if k > 0 {
        lemma_pow256_is_pow((k - 1) as nat);
    }
}

/// Encode an ASN.1 class as a byte with only the top 2 bits set.
pub fn class(c: ASN1Class) -> (r: u8)
    ensures
        r == class_byte(c),
{
    match c {
        ASN1Class::Universal => 0b0000_0000,
        ASN1Class::Application => 0b0100_0000,
        ASN1Class::ContextSpecific => 0b1000_0000,
        ASN1Class::Private => 0b1100_0000,
    }
}

/// Encode a content length: one byte below 128, otherwise a count byte
/// followed by the minimal big-endian bytes of the length.
pub fn len(x: usize) -> (r: Vec<u8>)
    ensures
        r@ == len_enc(x as nat),
{
    if x < 128 {
        let mut v: Vec<u8> = Vec::new();
        v.push(x as u8);
        proof {
            assert(v@ =~= len_enc(x as nat));
        }
        v
    } else {
        let mut bstr: Vec<u8> = Vec::new();
        let mut work: usize = x;
        while work > 0
            invariant
                be_bytes(x as nat) == be_bytes(work as nat) + bstr@,
            decreases work,
        {
            let ghost w0 = work as nat;
            let ghost b0 = bstr@;
            let b: u8 = (work % 256) as u8;
            bstr.insert(0, b);
            work = work / 256;
            proof {
                assert(be_bytes(w0) == be_bytes(w0 / 256) + seq![(w0 % 256) as u8]);
                assert(bstr@ =~= seq![b] + b0);
                assert(be_bytes(x as nat) =~= be_bytes(work as nat) + bstr@);
            }
        }
        proof {
            assert(bstr@ =~= be_bytes(x as nat));
            lemma_usize_bound(x);
            lemma_be_bytes_len(x as nat, 8);
        }
        let lb: u8 = (bstr.len() as u8) + 128;
        bstr.insert(0, lb);
        proof {
            assert(bstr@ =~= len_enc(x as nat));
        }
        bstr
    }
}

/// Encode a non-negative number as base-128 groups, most significant first,
/// the continuation bit set on every byte but the last.
pub fn base127(v: &num_bigint::BigUint) -> (r: Vec<u8>)
    ensures
        r@ == b127_enc(big_val(*v)),
{
    let ghost val0 = big_val(*v);
    let mut res: Vec<u8> = Vec::new();

    if big_is_zero(v) {
        res.push(0);
        proof {
            assert(res@ =~= b127_enc(val0));
        }
        return res;
    }

    let mut acc = v.clone();
    while !big_is_zero(&acc)
        invariant
            res@.len() == 0 ==> big_val(acc) == val0 && val0 > 0,
            res@.len() > 0 && big_val(acc) > 0 ==> b127_enc(val0) == b127_enc_hi(big_val(acc))
                + res@,
            res@.len() > 0 && big_val(acc) == 0 ==> b127_enc(val0) == res@,
        decreases big_val(acc),
    {
        let ghost a0 = big_val(acc);
        let ghost r0 = res@;
        let digit_big = big_rem128(&acc);
        acc = big_shr7(&acc);
        let digit: u8 = match big_to_u8(&digit_big) {
            Some(x) => x,
            None => {
                proof {
                    assert(false);
                }
                unreached()
            },
        };
        if res.len() == 0 {
            res.insert(0, digit);
            proof {
                if big_val(acc) == 0 {
                    assert(a0 < 128);
                    assert(res@ =~= b127_enc(val0));
                } else {
                    assert(a0 >= 128);
                    assert(b127_enc(val0) =~= b127_enc_hi(big_val(acc)) + res@);
                }
            }
        } else {
            res.insert(0, digit + 128);
            proof {
                assert(res@ =~= seq![(digit + 128) as u8] + r0);
                if big_val(acc) == 0 {
                    assert(a0 < 128);
                    assert(b127_enc_hi(a0) =~= seq![(a0 + 128) as u8]);
                    assert(b127_enc(val0) =~= res@);
                } else {
                    assert(a0 >= 128);
                    assert(b127_enc_hi(a0) == b127_enc_hi(a0 / 128) + seq![(a0 % 128 + 128) as u8]);
                    assert(b127_enc(val0) =~= b127_enc_hi(big_val(acc)) + res@);
                }
            }
        }
    }
    res
}

/// Encode a `(class, constructed, tag number)` triple: a single tag byte
/// when the tag number is below 31, the high-tag-number form otherwise.
pub fn tag(c: ASN1Class, constructed: bool, t: &num_bigint::BigUint) -> (r: Vec<u8>)
    ensures
        r@ == tag_enc(c, constructed, big_val(*t)),
{
    let cbyte = class(c);
    let conb: u8 = if constructed {
        32
    } else {
        0
    };
    match big_to_u8(t) {
        Some(x) if x < 31 => {
            let mut v: Vec<u8> = Vec::new();
            v.push(cbyte + conb + x);
            proof {
                assert(v@ =~= tag_enc(c, constructed, big_val(*t)));
            }
            v
        },
        _ => {
            let mut res = base127(t);
            res.insert(0, cbyte + conb + 31);
            proof {
                assert(big_val(*t) >= 31);
                assert(res@ =~= tag_enc(c, constructed, big_val(*t)));
            }
            res
        },
    }
}

/// Encode a string block: class-tagged primitive tag bytes, the length of
/// the body, then the body, which is either the text's UTF-8 bytes or one
/// byte per character.
pub fn asn1_string(tag_number: u8, force_chars: bool, c: ASN1Class, s: &str) -> (r: Result<
    Vec<u8>,
    ASN1EncodeErr,
>)
    ensures
        r matches Ok(v) && v@ == tag_enc(c, false, tag_number as nat) + len_enc(
            string_body(force_chars, s@).len(),
        ) + string_body(force_chars, s@),
{
    let mut body: Vec<u8> = if force_chars {
        let n = s.unicode_len();
        let mut out: Vec<u8> = Vec::new();
        let mut i: usize = 0;
        while i < n
            invariant
                n == s@.len(),
                i <= n,
                out@ =~= forced_bytes(s@).subrange(0, i as int),
            decreases n - i,
        {
            let ch = s.get_char(i);
            out.push((ch as u32 % 256) as u8);
            i = i + 1;
            proof {
                assert(out@ =~= forced_bytes(s@).subrange(0, i as int));
            }
        }
        proof {
            assert(out@ =~= forced_bytes(s@));
        }
        out
    } else {
        let b = s.as_bytes();
        let mut out: Vec<u8> = Vec::new();
        let mut i: usize = 0;
        while i < b.len()
            invariant
                i <= b@.len(),
                out@ =~= b@.subrange(0, i as int),
            decreases b@.len() - i,
        {
            out.push(b[i]);
            i = i + 1;
            proof {
                assert(out@ =~= b@.subrange(0, i as int));
            }
        }
        proof {
            assert(out@ =~= encode_utf8(s@));
        }
        out
    };
    let inttag = big_from_u8(tag_number);
    let mut lenbytes = len(body.len());
    let mut res = tag(c, false, &inttag);
    res.append(&mut lenbytes);
    res.append(&mut body);
    Ok(res)
}

/// The byte encoding of one block: its tag field, the length of its body,
/// then its body, each variant's body as the block data model gives it.
pub open spec fn enc_block(b: ASN1Block) -> Seq<u8>
    decreases b, 0int,
{
    match b {
        ASN1Block::Boolean(_, v) => {
            let body = seq![if v { 0xFFu8 } else { 0x00u8 }];
            tag_enc(ASN1Class::Universal, false, 1) + len_enc(body.len()) + body
        },
        ASN1Block::Integer(_, n) => {
            let body = sbe_of(int_val(n));
            tag_enc(ASN1Class::Universal, false, 2) + len_enc(body.len()) + body
        },
        ASN1Block::BitString(_, bits, bytes) => {
            let body = seq![((8 * bytes@.len() as int - bits) % 8) as u8] + bytes@;
            tag_enc(ASN1Class::Universal, false, 3) + len_enc(body.len()) + body
        },
        ASN1Block::OctetString(_, bytes) => {
            let body = bytes@;
            tag_enc(ASN1Class::Universal, false, 4) + len_enc(body.len()) + body
        },
        ASN1Block::Null(_) => {
            let body = Seq::<u8>::empty();
            tag_enc(ASN1Class::Universal, false, 5) + len_enc(body.len()) + body
        },
        ASN1Block::ObjectIdentifier(_, o) => {
            let body = oid_enc(o.components());
            tag_enc(ASN1Class::Universal, false, 6) + len_enc(body.len()) + body
        },
        ASN1Block::UTF8String(_, s) => {
            let body = encode_utf8(s@);
            tag_enc(ASN1Class::Universal, false, 12) + len_enc(body.len()) + body
        },
        ASN1Block::PrintableString(_, s) => {
            let body = forced_bytes(s@);
            tag_enc(ASN1Class::Universal, false, 19) + len_enc(body.len()) + body
        },
        ASN1Block::TeletexString(_, s) => {
            let body = encode_utf8(s@);
            tag_enc(ASN1Class::Universal, false, 20) + len_enc(body.len()) + body
        },
        ASN1Block::IA5String(_, s) => {
            let body = forced_bytes(s@);
            tag_enc(ASN1Class::Universal, false, 22) + len_enc(body.len()) + body
        },
        ASN1Block::UTCTime(_, d) => {
            let body = utc_body(d);
            tag_enc(ASN1Class::Universal, false, 23) + len_enc(body.len()) + body
        },
        ASN1Block::GeneralizedTime(_, d) => {
            let body = gen_body(d);
            tag_enc(ASN1Class::Universal, false, 24) + len_enc(body.len()) + body
        },
        ASN1Block::UniversalString(_, s) => {
            let body = encode_utf8(s@);
            tag_enc(ASN1Class::Universal, false, 28) + len_enc(body.len()) + body
        },
        ASN1Block::BMPString(_, s) => {
            let body = encode_utf8(s@);
            tag_enc(ASN1Class::Universal, false, 30) + len_enc(body.len()) + body
        },
        ASN1Block::Sequence(_, xs) => {
            let body = enc_blocks(xs@, 0);
            tag_enc(ASN1Class::Universal, true, 16) + len_enc(body.len()) + body
        },
        ASN1Block::SetOf(_, xs) => {
            let body = enc_blocks(xs@, 0);
            tag_enc(ASN1Class::Universal, true, 17) + len_enc(body.len()) + body
        },
        ASN1Block::Explicit(c, _, t, inner) => {
            let body = enc_block(*inner);
            tag_enc(c, true, big_val(t)) + len_enc(body.len()) + body
        },
        ASN1Block::Unknown(c, con, _, t, bytes) => {
            let body = bytes@;
            tag_enc(c, con, big_val(t)) + len_enc(body.len()) + body
        },
    }
}

/// The byte encodings of the blocks from position `i` on, concatenated in
/// order.
pub open spec fn enc_blocks(xs: Seq<ASN1Block>, i: int) -> Seq<u8>
    decreases xs, xs.len() - i,
{
    if i < 0 || i >= xs.len() {
        Seq::empty()
    } else {
        enc_block(xs[i]) + enc_blocks(xs, i + 1)
    }
}

/// Whether a block tree can be encoded: every object identifier in it meets
/// the canonical constraints. Nothing else can fail.
pub open spec fn encodable(b: ASN1Block) -> bool
    decreases b, 0int,
{
    match b {
        ASN1Block::ObjectIdentifier(_, o) => oid_encodable(o.components()),
        ASN1Block::Sequence(_, xs) => forall|k: int| 0 <= k < xs@.len() ==> encodable(#[trigger] xs@[k]),
        ASN1Block::SetOf(_, xs) => forall|k: int| 0 <= k < xs@.len() ==> encodable(#[trigger] xs@[k]),
        ASN1Block::Explicit(_, _, _, inner) => encodable(*inner),
        _ => true,
    }
}

/// Whether a block tree is well formed for byte-exact encoding: it is
/// encodable, and every bit string's bit count agrees with its byte count.
pub open spec fn wf_block(b: ASN1Block) -> bool
    decreases b, 0int,
{
    match b {
        ASN1Block::ObjectIdentifier(_, o) => oid_encodable(o.components()),
        ASN1Block::BitString(_, bits, bytes) => {
            &&& bytes@.len() <= usize::MAX as int / 8
            &&& if bytes@.len() == 0 {
                bits == 0
            } else {
                8 * (bytes@.len() - 1) < bits <= 8 * bytes@.len()
            }
        },
        ASN1Block::Sequence(_, xs) => forall|k: int| 0 <= k < xs@.len() ==> wf_block(#[trigger] xs@[k]),
        ASN1Block::SetOf(_, xs) => forall|k: int| 0 <= k < xs@.len() ==> wf_block(#[trigger] xs@[k]),
        ASN1Block::Explicit(_, _, _, inner) => wf_block(*inner),
        _ => true,
    }
}

/// The tag number a block encodes with.
pub open spec fn block_tag_num(b: ASN1Block) -> nat {
    match b {
        ASN1Block::Boolean(_, _) => 1,
        ASN1Block::Integer(_, _) => 2,
        ASN1Block::BitString(_, _, _) => 3,
        ASN1Block::OctetString(_, _) => 4,
        ASN1Block::Null(_) => 5,
        ASN1Block::ObjectIdentifier(_, _) => 6,
        ASN1Block::UTF8String(_, _) => 12,
        ASN1Block::PrintableString(_, _) => 19,
        ASN1Block::TeletexString(_, _) => 20,
        ASN1Block::IA5String(_, _) => 22,
        ASN1Block::UTCTime(_, _) => 23,
        ASN1Block::GeneralizedTime(_, _) => 24,
        ASN1Block::UniversalString(_, _) => 28,
        ASN1Block::BMPString(_, _) => 30,
        ASN1Block::Sequence(_, _) => 16,
        ASN1Block::SetOf(_, _) => 17,
        ASN1Block::Explicit(_, _, t, _) => big_val(t),
        ASN1Block::Unknown(_, _, _, t, _) => big_val(t),
    }
}

/// Whether a block encodes as constructed.
pub open spec fn block_constructed(b: ASN1Block) -> bool {
    match b {
        ASN1Block::Sequence(_, _) => true,
        ASN1Block::SetOf(_, _) => true,
        ASN1Block::Explicit(_, _, _, _) => true,
        ASN1Block::Unknown(_, con, _, _, _) => con,
        _ => false,
    }
}

/// The content bytes a block encodes with, between its length field and
/// the next block.
pub open spec fn block_body(b: ASN1Block) -> Seq<u8>
    decreases b, 0int,
{
    match b {
        ASN1Block::Boolean(_, v) => seq![if v { 0xFFu8 } else { 0x00u8 }],
        ASN1Block::Integer(_, n) => sbe_of(int_val(n)),
        ASN1Block::BitString(_, bits, bytes) => seq![((8 * bytes@.len() as int - bits) % 8) as u8]
            + bytes@,
        ASN1Block::OctetString(_, bytes) => bytes@,
        ASN1Block::Null(_) => Seq::empty(),
        ASN1Block::ObjectIdentifier(_, o) => oid_enc(o.components()),
        ASN1Block::UTF8String(_, s) => encode_utf8(s@),
        ASN1Block::PrintableString(_, s) => forced_bytes(s@),
        ASN1Block::TeletexString(_, s) => encode_utf8(s@),
        ASN1Block::IA5String(_, s) => forced_bytes(s@),
        ASN1Block::UTCTime(_, d) => utc_body(d),
        ASN1Block::GeneralizedTime(_, d) => gen_body(d),
        ASN1Block::UniversalString(_, s) => encode_utf8(s@),
        ASN1Block::BMPString(_, s) => encode_utf8(s@),
        ASN1Block::Sequence(_, xs) => enc_blocks(xs@, 0),
        ASN1Block::SetOf(_, xs) => enc_blocks(xs@, 0),
        ASN1Block::Explicit(_, _, _, inner) => enc_block(*inner),
        ASN1Block::Unknown(_, _, _, _, bytes) => bytes@,
    }
}

/// A block's encoding is its tag field, the length of its body, then its
/// body.
pub proof fn lemma_enc_block_parts(b: ASN1Block)
    ensures
        enc_block(b) == tag_enc(b.spec_class(), block_constructed(b), block_tag_num(b)) + len_enc(
            block_body(b).len(),
        ) + block_body(b),
        enc_block(b).len() >= 2 + block_body(b).len(),
{
    let parts = tag_enc(b.spec_class(), block_constructed(b), block_tag_num(b)) + len_enc(
        block_body(b).len(),
    ) + block_body(b);
    assert(tag_enc(b.spec_class(), block_constructed(b), block_tag_num(b)).len() >= 1);
    assert(len_enc(block_body(b).len()).len() >= 1);
    match b {
        ASN1Block::Boolean(_, _) => assert(enc_block(b) == parts),
        ASN1Block::Integer(_, _) => assert(enc_block(b) == parts),
        ASN1Block::BitString(_, _, _) => assert(enc_block(b) == parts),
        ASN1Block::OctetString(_, _) => assert(enc_block(b) == parts),
        ASN1Block::Null(_) => assert(enc_block(b) == parts),
        ASN1Block::ObjectIdentifier(_, _) => assert(enc_block(b) == parts),
        ASN1Block::UTF8String(_, _) => assert(enc_block(b) == parts),
        ASN1Block::PrintableString(_, _) => assert(enc_block(b) == parts),
        ASN1Block::TeletexString(_, _) => assert(enc_block(b) == parts),
        ASN1Block::IA5String(_, _) => assert(enc_block(b) == parts),
        ASN1Block::UTCTime(_, _) => assert(enc_block(b) == parts),
        ASN1Block::GeneralizedTime(_, _) => assert(enc_block(b) == parts),
        ASN1Block::UniversalString(_, _) => assert(enc_block(b) == parts),
        ASN1Block::BMPString(_, _) => assert(enc_block(b) == parts),
        ASN1Block::Sequence(_, _) => assert(enc_block(b) == parts),
        ASN1Block::SetOf(_, _) => assert(enc_block(b) == parts),
        ASN1Block::Explicit(_, _, _, _) => assert(enc_block(b) == parts),
        ASN1Block::Unknown(_, _, _, _, _) => assert(enc_block(b) == parts),
    }
}

/// Copy a byte vector.
fn to_vec_copy(src: &Vec<u8>) -> (r: Vec<u8>)
    ensures
        r@ == src@,
{
    let mut out: Vec<u8> = Vec::new();
    let mut i: usize = 0;
    while i < src.len()
        invariant
            0 <= i <= src@.len(),
            out@ =~= src@.subrange(0, i as int),
        decreases src@.len() - i,
    {
        out.push(src[i]);
        i = i + 1;
        proof {
            assert(out@ =~= src@.subrange(0, i as int));
        }
    }
    proof {
        assert(out@ =~= src@);
    }
    out
}

/// Assemble one block's bytes: tag field, length of the body, body.
fn assemble(c: ASN1Class, constructed: bool, t: &num_bigint::BigUint, body: Vec<u8>) -> (r: Vec<
    u8,
>)
    ensures
        r@ == tag_enc(c, constructed, big_val(*t)) + len_enc(body@.len()) + body@,
{
    let mut body = body;
    let ghost b0 = body@;
    let mut res = tag(c, constructed, t);
    let mut lenbytes = len(body.len());
    res.append(&mut lenbytes);
    res.append(&mut body);
    proof {
        assert(res@ =~= tag_enc(c, constructed, big_val(*t)) + len_enc(b0.len()) + b0);
    }
    res
}

/// Encode one block as its tag, length and content bytes, recursing into
/// constructed blocks; the children of a constructed block are serialized
/// first, so that the length field can precede them.
pub fn to_der(b: &ASN1Block) -> (r: Result<Vec<u8>, ASN1EncodeErr>)
    ensures
        r is Ok <==> encodable(*b),
        wf_block(*b) ==> (r matches Ok(v) && v@ == enc_block(*b)),
    decreases *b, 0int,
{
    match b {
        ASN1Block::Boolean(_, v) => {
            let mut body: Vec<u8> = Vec::new();
            body.push(if *v { 0xFF } else { 0x00 });
            let t = big_from_u8(1);
            let res = assemble(ASN1Class::Universal, false, &t, body);
            proof {
                assert(res@ =~= enc_block(*b));
            }
            Ok(res)
        },
        ASN1Block::Integer(_, n) => {
            let body = bigint_to_signed_bytes(n);
            let t = big_from_u8(2);
            let res = assemble(ASN1Class::Universal, false, &t, body);
            proof {
                assert(res@ =~= enc_block(*b));
            }
            Ok(res)
        },
        ASN1Block::BitString(_, bits, bytes) => {
            let unused: u8 = match bytes.len().checked_mul(8) {
                Some(total) => {
                    if *bits <= total && total - *bits <= 7 {
                        (total - *bits) as u8
                    } else {
                        0
                    }
                },
                None => 0,
            };
            let mut body: Vec<u8> = Vec::new();
            body.push(unused);
            let mut rest = to_vec_copy(bytes);
            body.append(&mut rest);
            let t = big_from_u8(3);
            let res = assemble(ASN1Class::Universal, false, &t, body);
            proof {
                if wf_block(*b) {
                    assert(body@ =~= seq![((8 * bytes@.len() as int - *bits) % 8) as u8]
                        + bytes@);
                    assert(res@ =~= enc_block(*b));
                }
            }
            Ok(res)
        },
        ASN1Block::OctetString(_, bytes) => {
            let body = to_vec_copy(bytes);
            let t = big_from_u8(4);
            let res = assemble(ASN1Class::Universal, false, &t, body);
            proof {
                assert(res@ =~= enc_block(*b));
            }
            Ok(res)
        },
        ASN1Block::Null(_) => {
            let body: Vec<u8> = Vec::new();
            let t = big_from_u8(5);
            let res = assemble(ASN1Class::Universal, false, &t, body);
            proof {
                assert(res@ =~= enc_block(*b));
            }
            Ok(res)
        },
        ASN1Block::ObjectIdentifier(_, o) => {
            let body = match o.as_raw() {
                Ok(v) => v,
                Err(e) => {
                    return Err(e);
                },
            };
            let t = big_from_u8(6);
            let res = assemble(ASN1Class::Universal, false, &t, body);
            proof {
                assert(res@ =~= enc_block(*b));
            }
            Ok(res)
        },
        ASN1Block::UTF8String(_, s) => string_block(12, false, s, Ghost(*b)),
        ASN1Block::PrintableString(_, s) => string_block(19, true, s, Ghost(*b)),
        ASN1Block::TeletexString(_, s) => string_block(20, false, s, Ghost(*b)),
        ASN1Block::IA5String(_, s) => string_block(22, true, s, Ghost(*b)),
        ASN1Block::UniversalString(_, s) => string_block(28, false, s, Ghost(*b)),
        ASN1Block::BMPString(_, s) => string_block(30, false, s, Ghost(*b)),
        ASN1Block::UTCTime(_, d) => {
            let body = d.to_utc_bytes();
            let t = big_from_u8(23);
            let res = assemble(ASN1Class::Universal, false, &t, body);
            proof {
                assert(res@ =~= enc_block(*b));
            }
            Ok(res)
        },
        ASN1Block::GeneralizedTime(_, d) => {
            let body = d.to_gen_bytes();
            let t = big_from_u8(24);
            let res = assemble(ASN1Class::Universal, false, &t, body);
            proof {
                assert(res@ =~= enc_block(*b));
            }
            Ok(res)
        },
        ASN1Block::Sequence(_, xs) => {
            let body = match encode_children(xs) {
                Ok(v) => v,
                Err(e) => {
                    return Err(e);
                },
            };
            let t = big_from_u8(16);
            let res = assemble(ASN1Class::Universal, true, &t, body);
            proof {
                if wf_block(*b) {
                    assert(res@ =~= enc_block(*b));
                }
            }
            Ok(res)
        },
        ASN1Block::SetOf(_, xs) => {
            let body = match encode_children(xs) {
                Ok(v) => v,
                Err(e) => {
                    return Err(e);
                },
            };
            let t = big_from_u8(17);
            let res = assemble(ASN1Class::Universal, true, &t, body);
            proof {
                if wf_block(*b) {
                    assert(res@ =~= enc_block(*b));
                }
            }
            Ok(res)
        },
        ASN1Block::Explicit(c, _, t, inner) => {
            let body = match to_der(inner) {
                Ok(v) => v,
                Err(e) => {
                    return Err(e);
                },
            };
            let res = assemble(*c, true, t, body);
            proof {
                if wf_block(*b) {
                    assert(res@ =~= enc_block(*b));
                }
            }
            Ok(res)
        },
        ASN1Block::Unknown(c, con, _, t, bytes) => {
            let body = to_vec_copy(bytes);
            let res = assemble(*c, *con, t, body);
            proof {
                assert(res@ =~= enc_block(*b));
            }
            Ok(res)
        },
    }
}

/// Encode a string block of the given universal tag for `to_der`.
fn string_block(tag_number: u8, force_chars: bool, s: &String, b: Ghost<ASN1Block>) -> (r: Result<
    Vec<u8>,
    ASN1EncodeErr,
>)
    requires
        tag_enc(b@.spec_class(), false, tag_number as nat) + len_enc(
            string_body(force_chars, s@).len(),
        ) + string_body(force_chars, s@) == enc_block(b@),
        encodable(b@),
        b@.spec_class() == ASN1Class::Universal,
    ensures
        r matches Ok(v) && v@ == enc_block(b@),
{
    match asn1_string(tag_number, force_chars, ASN1Class::Universal, s.as_str()) {
        Ok(v) => {
            proof {
                assert(v@ == enc_block(b@));
            }
            Ok(v)
        },
        Err(_) => {
            proof {
                assert(false);
            }
            unreached()
        },
    }
}

/// Encode every block of a list and concatenate the encodings, in order.
fn encode_children(xs: &Vec<ASN1Block>) -> (r: Result<Vec<u8>, ASN1EncodeErr>)
    ensures
        r is Ok <==> (forall|k: int| 0 <= k < xs@.len() ==> encodable(#[trigger] xs@[k])),
        (forall|k: int| 0 <= k < xs@.len() ==> wf_block(#[trigger] xs@[k])) ==> (r matches Ok(v)
            && v@ == enc_blocks(xs@, 0)),
    decreases xs@, xs@.len() + 1,
{
    let mut body: Vec<u8> = Vec::new();
    let mut i: usize = 0;
    while i < xs.len()
        invariant
            0 <= i <= xs@.len(),
            forall|k: int| 0 <= k < i ==> encodable(#[trigger] xs@[k]),
            (forall|k: int| 0 <= k < i ==> wf_block(#[trigger] xs@[k])) ==> enc_blocks(xs@, 0)
                == body@ + enc_blocks(xs@, i as int),
        decreases xs@.len() - i,
    {
        let ghost b0 = body@;
        let mut piece = match to_der(&xs[i]) {
            Ok(v) => v,
            Err(e) => {
                return Err(e);
            },
        };
        body.append(&mut piece);
        proof {
            if forall|k: int| 0 <= k < i + 1 ==> wf_block(#[trigger] xs@[k]) {
                assert(enc_blocks(xs@, i as int) == enc_block(xs@[i as int]) + enc_blocks(
                    xs@,
                    i + 1,
                ));
                assert(b0 + (enc_block(xs@[i as int]) + enc_blocks(xs@, i + 1)) =~= (b0
                    + enc_block(xs@[i as int])) + enc_blocks(xs@, i + 1));
            }
        }
        i = i + 1;
    }
    proof {
        if forall|k: int| 0 <= k < xs@.len() ==> wf_block(#[trigger] xs@[k]) {
            assert(enc_blocks(xs@, xs@.len() as int) =~= Seq::<u8>::empty());
            assert(body@ + Seq::<u8>::empty() =~= body@);
        }
    }
    Ok(body)
}

} // verus!
