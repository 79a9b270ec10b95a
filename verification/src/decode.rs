//! The decoding half of the TLV primitive layer: tag, base-128, length and
//! class readers over a byte buffer and a caller-supplied cursor.
use vstd::prelude::*;
use vstd::layout::size_of;

use crate::asn1_data_types::sem_eq;
use crate::asn1_data_types::sem_eq_children;
use crate::asn1_data_types::ASN1Block;
use crate::asn1_data_types::ASN1Class;
use crate::asn1_data_types::ASN1DateTime;
use crate::bignum::big_add_u8;
use crate::bignum::big_to_u8;
use crate::bignum::bigint_from_signed_bytes;
use crate::bignum::int_val;
use crate::bignum::sbe_of;
use crate::bignum::big_from_u8;
use crate::bignum::big_shl7;
use crate::bignum::big_val;
use crate::bignum::big_zero;
use crate::encode::block_body;
use crate::encode::block_constructed;
use crate::encode::block_tag_num;
use crate::encode::enc_block;
use crate::encode::enc_blocks;
use crate::encode::lemma_pow256_increases;
use crate::encode::lemma_usize_bound;
use crate::encode::pow256;
use crate::errors::ASN1DecodeErr;
use crate::encode::wf_block;
use crate::oid::OID;

verus! {

/// The class named by the top 2 bits of a tag byte. Every byte names one, so
/// class decoding cannot actually fail.
pub open spec fn class_of(b: u8) -> ASN1Class {
    if b < 64 {
        ASN1Class::Universal
    } else if b < 128 {
        ASN1Class::Application
    } else if b < 192 {
        ASN1Class::ContextSpecific
    } else {
        ASN1Class::Private
    }
}

/// The number a big-endian byte string holds.
pub open spec fn be_val(s: Seq<u8>) -> nat
    decreases s.len(),
{
    if s.len() == 0 {
        0
    } else {
        be_val(s.drop_last()) * 256 + s.last() as nat
    }
}

/// The number a base-128 byte string holds: 7 value bits per byte.
pub open spec fn b127_val(s: Seq<u8>) -> nat
    decreases s.len(),
{
    if s.len() == 0 {
        0
    } else {
        b127_val(s.drop_last()) * 128 + (s.last() % 128) as nat
    }
}

/// The position just past the first base-128 terminator byte (clear high
/// bit) at or after `o`, or `None` when the buffer ends first.
pub open spec fn b127_end(s: Seq<u8>, o: int) -> Option<int>
    decreases s.len() - o,
{
    if o < 0 || o >= s.len() {
        None
    } else if s[o] < 128 {
        Some(o + 1)
    } else {
        b127_end(s, o + 1)
    }
}

/// Everything `base127` promises: on the cursor `o` into buffer `s` it
/// returns the value of the 7-bit groups up to and including the first
/// terminator byte and leaves the cursor just past it, or reports an
/// incomplete buffer when no terminator exists.
pub open spec fn base127_post(
    s: Seq<u8>,
    o: int,
    r: Result<num_bigint::BigUint, ASN1DecodeErr>,
    e: int,
) -> bool {
    match b127_end(s, o) {
        Some(j) => r matches Ok(v) && big_val(v) == b127_val(s.subrange(o, j)) && e == j,
        None => r matches Err(err) && err == ASN1DecodeErr::Incomplete && (if o >= s.len() {
            e == o
        } else {
            e == s.len()
        }),
    }
}

/// Everything `length` promises: short form below 128; long form reads the
/// declared count of big-endian bytes, rejecting counts over the platform's
/// pointer width; an exhausted buffer is reported as incomplete.
pub open spec fn length_post(
    s: Seq<u8>,
    o: int,
    r: Result<usize, ASN1DecodeErr>,
    e: int,
) -> bool {
    if o >= s.len() {
        r matches Err(err) && err == ASN1DecodeErr::Incomplete && e == o
    } else if s[o] < 128 {
        r matches Ok(l) && l == s[o] as usize && e == o + 1
    } else if s[o] as int - 128 > size_of::<usize>() {
        r matches Err(err) && err == ASN1DecodeErr::LengthTooLarge((s[o] - 128) as usize) && e == o
            + 1
    } else if o + 1 + (s[o] as int - 128) <= s.len() {
        r matches Ok(l) && l as nat == be_val(s.subrange(o + 1, o + 1 + (s[o] as int - 128))) && e
            == o + 1 + (s[o] as int - 128)
    } else {
        r matches Err(err) && err == ASN1DecodeErr::Incomplete && e == s.len()
    }
}

/// Everything `tag` promises: one byte gives class, constructed flag and a
/// 5-bit base tag; base tag `11111` continues as base-128 groups.
pub open spec fn tag_post(
    s: Seq<u8>,
    o: int,
    r: Result<(num_bigint::BigUint, bool, ASN1Class), ASN1DecodeErr>,
    e: int,
) -> bool {
    if o >= s.len() {
        r matches Err(err) && err == ASN1DecodeErr::Incomplete && e == o
    } else if s[o] % 32 < 31 {
        r matches Ok(t) && big_val(t.0) == (s[o] % 32) as nat && t.1 == (s[o] / 32 % 2 == 1) && t.2
            == class_of(s[o]) && e == o + 1
    } else {
        match b127_end(s, o + 1) {
            Some(j) => r matches Ok(t) && big_val(t.0) == b127_val(s.subrange(o + 1, j)) && t.1 == (
            s[o] / 32 % 2 == 1) && t.2 == class_of(s[o]) && e == j,
            None => r matches Err(err) && err == ASN1DecodeErr::Incomplete && e == s.len(),
        }
    }
}

/// Decode the class field of a tag byte from its top 2 bits.
///
/// Every 2-bit pattern maps to a class, so this always succeeds; the
/// fallible signature is kept for interface symmetry.
pub fn class(i: u8) -> (r: Result<ASN1Class, ASN1DecodeErr>)
    ensures
        r matches Ok(c) && c == class_of(i),
{
    proof {
        assert((i >> 6 == 0 ==> i < 64) && (i >> 6 == 1 ==> 64 <= i && i < 128) && (i >> 6 == 2
            ==> 128 <= i && i < 192) && (i >> 6 == 3 ==> 192 <= i) && i >> 6 <= 3) by (bit_vector);
    }
    match i >> 6 {
        0b00 => Ok(ASN1Class::Universal),
        0b01 => Ok(ASN1Class::Application),
        0b10 => Ok(ASN1Class::ContextSpecific),
        0b11 => Ok(ASN1Class::Private),
        _ => Err(ASN1DecodeErr::InvalidClass(i)),
    }
}

/// Decode a base-128 number: accumulate 7 bits per byte until the first
/// byte whose high bit is clear, advancing the cursor past every byte read.
pub fn base127(i: &[u8], index: &mut usize) -> (r: Result<num_bigint::BigUint, ASN1DecodeErr>)
    ensures
        base127_post(i@, *old(index) as int, r, *final(index) as int),
{
    let ghost s = i@;
    let ghost o = *old(index) as int;
    if *index >= i.len() {
        return Err(ASN1DecodeErr::Incomplete);
    }
    let mut res = big_zero();

    loop
        invariant
            o == *old(index) as int,
            0 <= o <= *index <= s.len(),
            forall|k: int| o <= k < *index ==> s[k] >= 128,
            b127_end(s, o) == b127_end(s, *index as int),
            big_val(res) == b127_val(s.subrange(o, *index as int)),
            s == i@,
        decreases s.len() - *index,
    {
        if *index >= i.len() {
            proof {
                assert(*index == s.len());
                assert(b127_end(s, *index as int) is None);
            }
            return Err(ASN1DecodeErr::Incomplete);
        }
        let ghost i0 = *index as int;
        let nextbyte = i[*index];

        *index = *index + 1;
        proof {
            assert(nextbyte & 0x7f == nextbyte % 128) by (bit_vector);
            assert(s.subrange(o, i0 + 1).drop_last() =~= s.subrange(o, i0));
            assert(s.subrange(o, i0 + 1).last() == nextbyte);
        }
        res = big_add_u8(big_shl7(res), nextbyte & 0x7f);
        if (nextbyte & 0x80) == 0 {
            proof {
                assert(nextbyte < 128) by (bit_vector)
                    requires
                        nextbyte & 0x80 == 0,
                ;
                assert(b127_end(s, i0) == Some(i0 + 1));
            }
            return Ok(res);
        }
        proof {
            assert(nextbyte >= 128) by (bit_vector)
                requires
                    nextbyte & 0x80 != 0,
            ;
        }
    }
}

/// Decode a length field: a byte below 128 is the length; otherwise its low
/// 7 bits count the big-endian length bytes that follow, and counts beyond
/// the platform's pointer width are rejected as too large.
pub fn length(i: &[u8], index: &mut usize) -> (r: Result<usize, ASN1DecodeErr>)
    ensures
        length_post(i@, *old(index) as int, r, *final(index) as int),
{
    let ghost s = i@;
    let ghost o = *old(index) as int;
    if *index >= i.len() {
        return Err(ASN1DecodeErr::Incomplete);
    }
    let startbyte = i[*index];

    *index = *index + 1;
    if startbyte >= 0x80 {
        proof {
            assert(startbyte & 0x7f == startbyte - 128) by (bit_vector)
                requires
                    startbyte >= 0x80,
            ;
        }
        let mut lenlen: usize = (startbyte & 0x7f) as usize;
        let ghost ll = lenlen as int;
        let mut res: usize = 0;

        if lenlen > core::mem::size_of::<usize>() {
            return Err(ASN1DecodeErr::LengthTooLarge(lenlen));
        }

        while lenlen > 0
            invariant
                o == *old(index) as int,
                0 <= o < s.len(),
                s[o] >= 128,
                ll == s[o] as int - 128,
                0 <= lenlen <= ll,
                ll <= size_of::<usize>(),
                *index == o + 1 + (ll - lenlen),
                *index <= s.len(),
                res as nat == be_val(s.subrange(o + 1, *index as int)),
                res < pow256((ll - lenlen) as nat),
                s == i@,
            decreases lenlen,
        {
            if *index >= i.len() {
                return Err(ASN1DecodeErr::Incomplete);
            }
            let ghost i0 = *index as int;
            let b = i[*index];
            proof {
                lemma_usize_bound(res);
                lemma_pow256_increases((ll - lenlen + 1) as nat, size_of::<usize>());
                assert(pow256((ll - lenlen + 1) as nat) == 256 * pow256((ll - lenlen) as nat));
                assert(res * 256 + b < pow256((ll - lenlen + 1) as nat));
            }
            res = res * 256 + (b as usize);

            *index = *index + 1;
            lenlen = lenlen - 1;
            proof {
                assert(s.subrange(o + 1, i0 + 1).drop_last() =~= s.subrange(o + 1, i0));
                assert(s.subrange(o + 1, i0 + 1).last() == b);
            }
        }

        Ok(res)
    } else {
        Ok(startbyte as usize)
    }
}

/// Decode a tag field: the tag number, whether the block is constructed,
/// and the class. A 5-bit base tag of `11111` continues as a base-128
/// number over the following bytes.
pub fn tag(i: &[u8], index: &mut usize) -> (r: Result<
    (num_bigint::BigUint, bool, ASN1Class),
    ASN1DecodeErr,
>)
    ensures
        tag_post(i@, *old(index) as int, r, *final(index) as int),
{
    let ghost s = i@;
    let ghost o = *old(index) as int;
    if *index >= i.len() {
        return Err(ASN1DecodeErr::Incomplete);
    }
    let tagbyte = i[*index];
    let constructed = (tagbyte & 0b0010_0000) != 0;
    let cls = match class(tagbyte) {
        Ok(c) => c,
        Err(e) => {
            return Err(e);
        },
    };
    let basetag = tagbyte & 0b1_1111;
    proof {
        assert(tagbyte & 0b1_1111 == tagbyte % 32) by (bit_vector);
        assert(((tagbyte & 0b0010_0000) != 0) == (tagbyte / 32 % 2 == 1)) by (bit_vector);
    }

    *index = *index + 1;

    if basetag == 0b1_1111 {
        match base127(i, index) {
            Ok(res) => Ok((res, constructed, cls)),
            Err(e) => {
                proof {
                    assert(b127_end(s, o + 1) is None);
                }
                Err(e)
            },
        }
    } else {
        Ok((big_from_u8(basetag), constructed, cls))
    }
}

/// A successful base-128 read ends past where it began and within the
/// buffer.
pub proof fn lemma_b127_end_bounds(s: Seq<u8>, o: int)
    ensures
        b127_end(s, o) matches Some(j) ==> o < j <= s.len(),
    decreases s.len() - o,
{
    if 0 <= o < s.len() && s[o] >= 128 {
        lemma_b127_end_bounds(s, o + 1);
    }
}

/// The object-identifier components that the base-128 groups from `o` to
/// the end of the buffer hold, or `None` when the last group is unfinished.
pub open spec fn oid_rest(s: Seq<u8>, o: int) -> Option<Seq<nat>>
    decreases s.len() - o,
    when 0 <= o
    via oid_rest_dec
{
    if o >= s.len() {
        Some(Seq::empty())
    } else {
        match b127_end(s, o) {
            None => None,
            Some(j) => match oid_rest(s, j) {
                None => None,
                Some(t) => Some(seq![b127_val(s.subrange(o, j))] + t),
            },
        }
    }
}

#[via_fn]
proof fn oid_rest_dec(s: Seq<u8>, o: int) {
    lemma_b127_end_bounds(s, o);
}

/// The first two object-identifier components a leading byte folds
/// together: below 80 the byte is `40x + y` with `x` under 2; from 80 on
/// `x` is 2.
pub open spec fn oid_head(b: u8) -> (nat, nat) {
    if b < 80 {
        ((b / 40) as nat, (b % 40) as nat)
    } else {
        (2, (b - 80) as nat)
    }
}

/// Copy the bytes of `i` from `from` up to `to`.
fn copy_range(i: &[u8], from: usize, to: usize) -> (r: Vec<u8>)
    requires
        from <= to <= i@.len(),
    ensures
        r@ == i@.subrange(from as int, to as int),
{
    let mut out: Vec<u8> = Vec::new();
    let mut k: usize = from;
    while k < to
        invariant
            from <= k <= to <= i@.len(),
            out@ =~= i@.subrange(from as int, k as int),
        decreases to - k,
    {
        out.push(i[k]);
        k = k + 1;
        proof {
            assert(out@ =~= i@.subrange(from as int, k as int));
        }
    }
    proof {
        assert(out@ =~= i@.subrange(from as int, to as int));
    }
    out
}

/// Relies on `str::from_utf8` and `str::to_owned`: `Some` exactly on valid
/// UTF-8, and then the text those bytes decode to.
#[verifier::external_body]
fn utf8_to_string(b: &[u8]) -> (r: Option<String>)
    ensures
        r is Some <==> vstd::utf8::valid_utf8(b@),
        r matches Some(s) ==> s@ == vstd::utf8::decode_utf8(b@),
{
    match core::str::from_utf8(b) {
        Ok(s) => Some(s.to_owned()),
        Err(_) => None,
    }
}

/// Decode the canonical byte encoding of an object identifier: the first
/// byte folds the first two components, the rest are base-128 groups.
pub fn oid_from_raw(content: &[u8]) -> (r: Result<OID, ASN1DecodeErr>)
    ensures
        content@.len() == 0 ==> (r matches Err(e) && e == ASN1DecodeErr::Incomplete),
        content@.len() > 0 ==> match oid_rest(content@, 1) {
            Some(t) => r matches Ok(o) && o.components() == seq![
                oid_head(content@[0]).0,
                oid_head(content@[0]).1,
            ] + t,
            None => r matches Err(e) && e == ASN1DecodeErr::Incomplete,
        },
{
    let ghost s = content@;
    if content.len() == 0 {
        return Err(ASN1DecodeErr::Incomplete);
    }
    let b1 = content[0];
    let (x, y): (u8, u8) = if b1 < 80 {
        (b1 / 40, b1 % 40)
    } else {
        (2, b1 - 80)
    };
    let mut components: Vec<num_bigint::BigUint> = Vec::new();
    components.push(crate::bignum::big_from_u8(x));
    components.push(crate::bignum::big_from_u8(y));
    let ghost head = seq![oid_head(s[0]).0, oid_head(s[0]).1];
    let mut index: usize = 1;
    proof {
        assert(crate::oid::component_vals(components@) =~= head
            + Seq::<nat>::empty());
    }
    while index < content.len()
        invariant
            s == content@,
            head == seq![oid_head(s[0]).0, oid_head(s[0]).1],
            1 <= index <= s.len(),
            components@.len() >= 2,
            exists|p: Seq<nat>|
                {
                    &&& crate::oid::component_vals(components@) == #[trigger] (
                    head + p)
                    &&& (oid_rest(s, index as int) matches Some(t) ==> oid_rest(s, 1) == Some(
                        p + t,
                    ))
                    &&& (oid_rest(s, index as int) is None ==> oid_rest(s, 1) is None)
                },
        decreases s.len() - index,
    {
        let ghost i0 = index as int;
        let ghost p0 = choose|p: Seq<nat>|
            {
                &&& crate::oid::component_vals(components@) == #[trigger] (
                head + p)
                &&& (oid_rest(s, i0) matches Some(t) ==> oid_rest(s, 1) == Some(p + t))
                &&& (oid_rest(s, i0) is None ==> oid_rest(s, 1) is None)
            };
        let piece = match base127(content, &mut index) {
            Ok(v) => v,
            Err(e) => {
                proof {
                    assert(b127_end(s, i0) is None);
                    assert(oid_rest(s, i0) is None);
                }
                return Err(e);
            },
        };
        proof {
            lemma_b127_end_bounds(s, i0);
        }
        let ghost c0 = components@;
        components.push(piece);
        proof {
            let j = index as int;
            let v = b127_val(s.subrange(i0, j));
            let p1 = p0 + seq![v];
            assert(crate::oid::component_vals(c0) == head + p0);
            assert(big_val(piece) == v);
            assert(components@ =~= c0.push(piece));
            assert forall|idx: int|
                0 <= idx < components@.len() implies crate::oid::component_vals(components@)[idx]
                == (head + p1)[idx] by {
                if idx < c0.len() {
                    assert(crate::oid::component_vals(c0)[idx] == big_val(c0[idx]));
                }
            }
            assert(crate::oid::component_vals(components@) =~= head + p1);
            match oid_rest(s, j) {
                Some(t) => {
                    assert(oid_rest(s, i0) == Some(seq![v] + t));
                    assert(p0 + (seq![v] + t) =~= p1 + t);
                    assert(oid_rest(s, 1) == Some(p1 + t));
                },
                None => {
                    assert(oid_rest(s, i0) is None);
                },
            }
        }
    }
    let oid = OID::new(components);
    proof {
        let p0 = choose|p: Seq<nat>|
            {
                &&& crate::oid::component_vals(components@) == #[trigger] (
                head + p)
                &&& (oid_rest(s, index as int) matches Some(t) ==> oid_rest(s, 1) == Some(p + t))
                &&& (oid_rest(s, index as int) is None ==> oid_rest(s, 1) is None)
            };
        assert(oid_rest(s, index as int) == Some(Seq::<nat>::empty()));
        assert(p0 + Seq::<nat>::empty() =~= p0);
        assert(oid.components() == head + p0);
    }
    Ok(oid)
}

/// The universal tag numbers with a defined primitive meaning, which the
/// decoder never maps to `Unknown`.
pub open spec fn reserved_tag(t: nat) -> bool {
    ||| t == 1
    ||| t == 2
    ||| t == 3
    ||| t == 4
    ||| t == 5
    ||| t == 6
    ||| t == 12
    ||| t == 19
    ||| t == 20
    ||| t == 22
    ||| t == 23
    ||| t == 24
    ||| t == 28
    ||| t == 30
}

/// Whether the decoder can reproduce a block from its own encoding: text in
/// the single-byte string subtypes is ASCII, timestamps are well formed (and
/// within the two-digit era for `UTCTime`), an `Explicit` block is not
/// `Universal`, and an `Unknown` block is primitive with no tag the decoder
/// claims for a defined variant.
pub open spec fn dec_ok(b: ASN1Block) -> bool
    decreases b, 0int,
{
    match b {
        ASN1Block::PrintableString(_, s) => vstd::utf8::is_ascii_chars(s@),
        ASN1Block::IA5String(_, s) => vstd::utf8::is_ascii_chars(s@),
        ASN1Block::UTCTime(_, d) => d.wf() && 1950 <= d.year <= 2049,
        ASN1Block::GeneralizedTime(_, d) => d.wf(),
        ASN1Block::Sequence(_, xs) => forall|k: int| 0 <= k < xs@.len() ==> dec_ok(#[trigger] xs@[k]),
        ASN1Block::SetOf(_, xs) => forall|k: int| 0 <= k < xs@.len() ==> dec_ok(#[trigger] xs@[k]),
        ASN1Block::Explicit(c, _, _, inner) => c != ASN1Class::Universal && dec_ok(*inner),
        ASN1Block::Unknown(c, con, _, t, _) => !con && (c == ASN1Class::Universal
            ==> !reserved_tag(big_val(t))),
        _ => true,
    }
}

/// The buffer `s` carries the encoding of the reproducible, well-formed
/// block `bb` at position `o`, within `limit`.
pub open spec fn carries(s: Seq<u8>, o: int, limit: int, bb: ASN1Block) -> bool {
    &&& wf_block(bb)
    &&& dec_ok(bb)
    &&& 0 <= o
    &&& o + enc_block(bb).len() <= limit
    &&& limit <= s.len()
    &&& s.len() <= usize::MAX
    &&& s.subrange(o, o + enc_block(bb).len()) == enc_block(bb)
}

/// The buffer `s` carries the concatenated encodings of the reproducible,
/// well-formed blocks `bs` exactly from `o` up to `e`.
pub open spec fn children_carry(s: Seq<u8>, o: int, e: int, bs: Seq<ASN1Block>) -> bool {
    &&& forall|k: int| 0 <= k < bs.len() ==> wf_block(#[trigger] bs[k]) && dec_ok(bs[k])
    &&& 0 <= o
    &&& o + enc_blocks(bs, 0).len() == e
    &&& e <= s.len()
    &&& s.len() <= usize::MAX
    &&& s.subrange(o, e) == enc_blocks(bs, 0)
}

/// What the decoded tag and length fields say about a carried block: its
/// header triple and the position and bytes of its body.
pub open spec fn header_match(
    s: Seq<u8>,
    o: int,
    bb: ASN1Block,
    tn: nat,
    con: bool,
    cls: ASN1Class,
    blen: int,
    el: int,
) -> bool {
    &&& tn == block_tag_num(bb)
    &&& con == block_constructed(bb)
    &&& cls == bb.spec_class()
    &&& blen == block_body(bb).len()
    &&& el + blen == o + enc_block(bb).len()
    &&& s.subrange(el, el + blen) == block_body(bb)
}

/// Decode one block at the cursor: tag, length, then content, recursing
/// into the content region of a constructed block until it is exhausted.
/// Combinations without a defined meaning fall back to `Unknown`.
///
/// The quantified clause is the decode-back half of the round trip: on a
/// buffer that carries the encoding of a reproducible well-formed block,
/// the decoder returns a block with the same payload and leaves the cursor
/// just past the encoding.
#[verifier::rlimit(100)]
pub fn decode_block(i: &[u8], index: &mut usize, limit: usize) -> (r: Result<
    ASN1Block,
    ASN1DecodeErr,
>)
    requires
        *old(index) < limit <= i@.len(),
    ensures
        r is Ok ==> *old(index) < *final(index) <= limit,
        r matches Ok(b) ==> b.spec_offset() == *old(index) && b.spec_class() == class_of(
            i@[*old(index) as int],
        ),
        r matches Err(e) ==> e != ASN1DecodeErr::EmptyBuffer,
        forall|bb: ASN1Block| #[trigger] carries(i@, *old(index) as int, limit as int, bb) ==> (
        r matches Ok(rb) && sem_eq(rb, bb) && *final(index) as int == *old(index) + enc_block(
            bb,
        ).len()),
    decreases limit - *index, 0int,
{
    let ghost s = i@;
    let ghost limitg = limit as int;
    let start = *index;
    let ghost o = start as int;
    let tag_res = tag(i, index);
    let ghost rt = tag_res;
    let ghost et = *index as int;
    let (tagno, constructed, cls) = match tag_res {
        Ok(t) => t,
        Err(e) => {
            proof {
                assert forall|bb: ASN1Block| #[trigger] carries(s, o, limitg, bb) implies false by {
                    crate::laws::lemma_block_header_tag(bb, s, o, rt, et);
                }
            }
            return Err(e);
        },
    };
    proof {
        if s[start as int] % 32 >= 31 {
            lemma_b127_end_bounds(s, start + 1);
        }
    }
    let len_res = length(i, index);
    let ghost rl = len_res;
    let ghost el = *index as int;
    let blen = match len_res {
        Ok(l) => l,
        Err(e) => {
            proof {
                assert forall|bb: ASN1Block| #[trigger] carries(s, o, limitg, bb) implies false by {
                    crate::laws::lemma_block_header_tag(bb, s, o, rt, et);
                    crate::laws::lemma_block_header_len(bb, s, o, et, rl, el);
                }
            }
            return Err(e);
        },
    };
    proof {
        assert forall|bb: ASN1Block| #[trigger] carries(s, o, limitg, bb) implies header_match(
            s,
            o,
            bb,
            big_val(tagno),
            constructed,
            cls,
            blen as int,
            el,
        ) by {
            crate::laws::lemma_block_header_tag(bb, s, o, rt, et);
            crate::laws::lemma_block_header_len(bb, s, o, et, rl, el);
        }
    }
    if *index > limit || blen > limit - *index {
        proof {
            assert forall|bb: ASN1Block| #[trigger] carries(s, o, limitg, bb) implies false by {}
        }
        return Err(ASN1DecodeErr::Incomplete);
    }
    let end = *index + blen;

    if constructed {
        if cls == ASN1Class::Universal {
            let t8 = big_to_u8(&tagno);
            if let Some(16) = t8 {
                let ghost elc = *index as int;
                let children = match decode_children(i, index, end) {
                    Ok(v) => v,
                    Err(e) => {
                        proof {
                            assert forall|bb: ASN1Block|
                                #[trigger] carries(s, o, limitg, bb) implies false by {
                                assert(bb is Sequence);
                                assert(children_carry(s, elc, end as int, bb->Sequence_1@));
                            }
                        }
                        return Err(e);
                    },
                };
                proof {
                    assert forall|bb: ASN1Block| #[trigger] carries(s, o, limitg, bb) implies sem_eq(
                        ASN1Block::Sequence(start, children),
                        bb,
                    ) && o + enc_block(bb).len() == end as int by {
                        assert(bb is Sequence);
                        assert(children_carry(s, elc, end as int, bb->Sequence_1@));
                    }
                }
                return Ok(ASN1Block::Sequence(start, children));
            }
            if let Some(17) = t8 {
                let ghost elc = *index as int;
                let children = match decode_children(i, index, end) {
                    Ok(v) => v,
                    Err(e) => {
                        proof {
                            assert forall|bb: ASN1Block|
                                #[trigger] carries(s, o, limitg, bb) implies false by {
                                assert(bb is SetOf);
                                assert(children_carry(s, elc, end as int, bb->SetOf_1@));
                            }
                        }
                        return Err(e);
                    },
                };
                proof {
                    assert forall|bb: ASN1Block| #[trigger] carries(s, o, limitg, bb) implies sem_eq(
                        ASN1Block::SetOf(start, children),
                        bb,
                    ) && o + enc_block(bb).len() == end as int by {
                        assert(bb is SetOf);
                        assert(children_carry(s, elc, end as int, bb->SetOf_1@));
                    }
                }
                return Ok(ASN1Block::SetOf(start, children));
            }
            let content = copy_range(i, *index, end);
            proof {
                assert forall|bb: ASN1Block| #[trigger] carries(s, o, limitg, bb) implies false by {}
            }
            *index = end;
            return Ok(ASN1Block::Unknown(cls, true, start, tagno, content));
        }
        if *index < end {
            let content_start = *index;
            let ghost elc = *index as int;
            match decode_block(i, index, end) {
                Ok(child) => {
                    if *index == end {
                        proof {
                            assert forall|bb: ASN1Block|
                                #[trigger] carries(s, o, limitg, bb) implies sem_eq(
                                ASN1Block::Explicit(cls, start, tagno, Box::new(child)),
                                bb,
                            ) && o + enc_block(bb).len() == end as int by {
                                assert(bb is Explicit);
                                crate::encode::lemma_enc_block_parts(*bb->Explicit_3);
                                assert(carries(s, elc, end as int, *bb->Explicit_3));
                            }
                        }
                        return Ok(ASN1Block::Explicit(cls, start, tagno, Box::new(child)));
                    }
                },
                Err(_) => {},
            }
            proof {
                assert forall|bb: ASN1Block| #[trigger] carries(s, o, limitg, bb) implies false by {
                    assert(bb is Explicit);
                    crate::encode::lemma_enc_block_parts(*bb->Explicit_3);
                    assert(carries(s, elc, end as int, *bb->Explicit_3));
                }
            }
            // content that is not exactly one block is preserved verbatim
            let content = copy_range(i, content_start, end);
            *index = end;
            return Ok(ASN1Block::Unknown(cls, true, start, tagno, content));
        }
        proof {
            assert forall|bb: ASN1Block| #[trigger] carries(s, o, limitg, bb) implies false by {
                assert(bb is Explicit);
                crate::encode::lemma_enc_block_parts(*bb->Explicit_3);
            }
        }
        let content: Vec<u8> = Vec::new();
        *index = end;
        return Ok(ASN1Block::Unknown(cls, true, start, tagno, content));
    }

    if cls == ASN1Class::Universal {
        let t8 = big_to_u8(&tagno);
        match t8 {
            Some(1) => {
                if blen != 1 {
                    proof {
                        assert forall|bb: ASN1Block|
                            #[trigger] carries(s, o, limitg, bb) implies false by {}
                    }
                    return Err(ASN1DecodeErr::BadBooleanLength(blen));
                }
                let v = i[*index];
                proof {
                    assert forall|bb: ASN1Block| #[trigger] carries(s, o, limitg, bb) implies sem_eq(
                        ASN1Block::Boolean(start, v != 0),
                        bb,
                    ) && o + enc_block(bb).len() == end as int by {
                        assert(bb is Boolean);
                        assert(s[el] == block_body(bb)[0]);
                    }
                }
                *index = end;
                Ok(ASN1Block::Boolean(start, v != 0))
            },
            Some(2) => {
                let content = copy_range(i, *index, end);
                *index = end;
                let n = bigint_from_signed_bytes(content.as_slice());
                proof {
                    assert forall|bb: ASN1Block| #[trigger] carries(s, o, limitg, bb) implies sem_eq(
                        ASN1Block::Integer(start, n),
                        bb,
                    ) && o + enc_block(bb).len() == end as int by {
                        assert(bb is Integer);
                        assert(content@ == sbe_of(int_val(bb->Integer_1)));
                    }
                }
                Ok(ASN1Block::Integer(start, n))
            },
            Some(3) => {
                if blen == 0 {
                    proof {
                        assert forall|bb: ASN1Block|
                            #[trigger] carries(s, o, limitg, bb) implies false by {}
                    }
                    return Err(ASN1DecodeErr::InvalidBitStringLength(-1));
                }
                let unused = i[*index];
                proof {
                    assert forall|bb: ASN1Block|
                        #[trigger] carries(s, o, limitg, bb) implies s[el] == block_body(bb)[0]
                        && unused <= 7 && (blen == 1 ==> unused == 0) by {
                        assert(bb is BitString);
                        assert(s[el] == s.subrange(el, el + blen as int)[0]);
                    }
                }
                if unused > 7 || (blen == 1 && unused != 0) {
                    proof {
                        assert forall|bb: ASN1Block|
                            #[trigger] carries(s, o, limitg, bb) implies false by {}
                    }
                    return Err(ASN1DecodeErr::InvalidBitStringLength(unused as isize));
                }
                let bytes = copy_range(i, *index + 1, end);
                let bits: usize = match (blen - 1).checked_mul(8) {
                    Some(total) => total - (unused as usize),
                    None => {
                        proof {
                            assert forall|bb: ASN1Block|
                                #[trigger] carries(s, o, limitg, bb) implies false by {
                                assert(bb is BitString);
                            }
                        }
                        return Err(ASN1DecodeErr::Overflow);
                    },
                };
                proof {
                    assert forall|bb: ASN1Block| #[trigger] carries(s, o, limitg, bb) implies sem_eq(
                        ASN1Block::BitString(start, bits, bytes),
                        bb,
                    ) && o + enc_block(bb).len() == end as int by {
                        assert(bb is BitString);
                        assert(s.subrange(el + 1, el + blen) =~= block_body(bb).subrange(
                            1,
                            blen as int,
                        ));
                        assert(block_body(bb).subrange(1, blen as int) =~= bb->BitString_2@);
                    }
                }
                *index = end;
                Ok(ASN1Block::BitString(start, bits, bytes))
            },
            Some(4) => {
                let content = copy_range(i, *index, end);
                proof {
                    assert forall|bb: ASN1Block| #[trigger] carries(s, o, limitg, bb) implies sem_eq(
                        ASN1Block::OctetString(start, content),
                        bb,
                    ) && o + enc_block(bb).len() == end as int by {
                        assert(bb is OctetString);
                    }
                }
                *index = end;
                Ok(ASN1Block::OctetString(start, content))
            },
            Some(5) => {
                proof {
                    assert forall|bb: ASN1Block| #[trigger] carries(s, o, limitg, bb) implies sem_eq(
                        ASN1Block::Null(start),
                        bb,
                    ) && o + enc_block(bb).len() == end as int by {
                        assert(bb is Null);
                    }
                }
                *index = end;
                Ok(ASN1Block::Null(start))
            },
            Some(6) => {
                let content = copy_range(i, *index, end);
                *index = end;
                match oid_from_raw(content.as_slice()) {
                    Ok(oid) => {
                        proof {
                            assert forall|bb: ASN1Block|
                                #[trigger] carries(s, o, limitg, bb) implies sem_eq(
                                ASN1Block::ObjectIdentifier(start, oid),
                                bb,
                            ) && o + enc_block(bb).len() == end as int by {
                                assert(bb is ObjectIdentifier);
                                crate::laws::lemma_oid_round_trip(
                                    bb->ObjectIdentifier_1.components(),
                                );
                            }
                        }
                        Ok(ASN1Block::ObjectIdentifier(start, oid))
                    },
                    Err(e) => {
                        proof {
                            assert forall|bb: ASN1Block|
                                #[trigger] carries(s, o, limitg, bb) implies false by {
                                assert(bb is ObjectIdentifier);
                                crate::laws::lemma_oid_round_trip(
                                    bb->ObjectIdentifier_1.components(),
                                );
                            }
                        }
                        Err(e)
                    },
                }
            },
            Some(12) => {
                let content = copy_range(i, *index, end);
                *index = end;
                match utf8_to_string(content.as_slice()) {
                    Some(st) => {
                        proof {
                            assert forall|bb: ASN1Block|
                                #[trigger] carries(s, o, limitg, bb) implies sem_eq(
                                ASN1Block::UTF8String(start, st),
                                bb,
                            ) && o + enc_block(bb).len() == end as int by {
                                assert(bb is UTF8String);
                                crate::laws::lemma_string_body_round_trip(bb->UTF8String_1@);
                            }
                        }
                        Ok(ASN1Block::UTF8String(start, st))
                    },
                    None => {
                        proof {
                            assert forall|bb: ASN1Block|
                                #[trigger] carries(s, o, limitg, bb) implies false by {
                                assert(bb is UTF8String);
                                crate::laws::lemma_string_body_round_trip(bb->UTF8String_1@);
                            }
                        }
                        Err(ASN1DecodeErr::UTF8DecodeFailure)
                    },
                }
            },
            Some(19) => {
                let content = copy_range(i, *index, end);
                *index = end;
                match utf8_to_string(content.as_slice()) {
                    Some(st) => {
                        proof {
                            assert forall|bb: ASN1Block|
                                #[trigger] carries(s, o, limitg, bb) implies sem_eq(
                                ASN1Block::PrintableString(start, st),
                                bb,
                            ) && o + enc_block(bb).len() == end as int by {
                                assert(bb is PrintableString);
                                crate::laws::lemma_forced_ascii_body(bb->PrintableString_1@);
                                crate::laws::lemma_string_body_round_trip(bb->PrintableString_1@);
                            }
                        }
                        Ok(ASN1Block::PrintableString(start, st))
                    },
                    None => {
                        proof {
                            assert forall|bb: ASN1Block|
                                #[trigger] carries(s, o, limitg, bb) implies false by {
                                assert(bb is PrintableString);
                                crate::laws::lemma_forced_ascii_body(bb->PrintableString_1@);
                                crate::laws::lemma_string_body_round_trip(bb->PrintableString_1@);
                            }
                        }
                        Err(ASN1DecodeErr::PrintableStringDecodeFailure)
                    },
                }
            },
            Some(20) => {
                let content = copy_range(i, *index, end);
                *index = end;
                match utf8_to_string(content.as_slice()) {
                    Some(st) => {
                        proof {
                            assert forall|bb: ASN1Block|
                                #[trigger] carries(s, o, limitg, bb) implies sem_eq(
                                ASN1Block::TeletexString(start, st),
                                bb,
                            ) && o + enc_block(bb).len() == end as int by {
                                assert(bb is TeletexString);
                                crate::laws::lemma_string_body_round_trip(bb->TeletexString_1@);
                            }
                        }
                        Ok(ASN1Block::TeletexString(start, st))
                    },
                    None => {
                        proof {
                            assert forall|bb: ASN1Block|
                                #[trigger] carries(s, o, limitg, bb) implies false by {
                                assert(bb is TeletexString);
                                crate::laws::lemma_string_body_round_trip(bb->TeletexString_1@);
                            }
                        }
                        Err(ASN1DecodeErr::UTF8DecodeFailure)
                    },
                }
            },
            Some(22) => {
                let content = copy_range(i, *index, end);
                *index = end;
                match utf8_to_string(content.as_slice()) {
                    Some(st) => {
                        proof {
                            assert forall|bb: ASN1Block|
                                #[trigger] carries(s, o, limitg, bb) implies sem_eq(
                                ASN1Block::IA5String(start, st),
                                bb,
                            ) && o + enc_block(bb).len() == end as int by {
                                assert(bb is IA5String);
                                crate::laws::lemma_forced_ascii_body(bb->IA5String_1@);
                                crate::laws::lemma_string_body_round_trip(bb->IA5String_1@);
                            }
                        }
                        Ok(ASN1Block::IA5String(start, st))
                    },
                    None => {
                        proof {
                            assert forall|bb: ASN1Block|
                                #[trigger] carries(s, o, limitg, bb) implies false by {
                                assert(bb is IA5String);
                                crate::laws::lemma_forced_ascii_body(bb->IA5String_1@);
                                crate::laws::lemma_string_body_round_trip(bb->IA5String_1@);
                            }
                        }
                        Err(ASN1DecodeErr::UTF8DecodeFailure)
                    },
                }
            },
            Some(23) => {
                let content = copy_range(i, *index, end);
                *index = end;
                match ASN1DateTime::from_utc_bytes(content.as_slice()) {
                    Some(d) => {
                        proof {
                            assert forall|bb: ASN1Block|
                                #[trigger] carries(s, o, limitg, bb) implies sem_eq(
                                ASN1Block::UTCTime(start, d),
                                bb,
                            ) && o + enc_block(bb).len() == end as int by {
                                assert(bb is UTCTime);
                                crate::laws::lemma_utc_round_trip(bb->UTCTime_1);
                            }
                        }
                        Ok(ASN1Block::UTCTime(start, d))
                    },
                    None => {
                        proof {
                            assert forall|bb: ASN1Block|
                                #[trigger] carries(s, o, limitg, bb) implies false by {
                                assert(bb is UTCTime);
                                crate::laws::lemma_utc_round_trip(bb->UTCTime_1);
                            }
                        }
                        Err(
                            ASN1DecodeErr::InvalidDateValue(
                                match utf8_to_string(content.as_slice()) {
                                    Some(st) => st,
                                    None => String::new(),
                                },
                            ),
                        )
                    },
                }
            },
            Some(24) => {
                let content = copy_range(i, *index, end);
                *index = end;
                match ASN1DateTime::from_gen_bytes(content.as_slice()) {
                    Some(d) => {
                        proof {
                            assert forall|bb: ASN1Block|
                                #[trigger] carries(s, o, limitg, bb) implies sem_eq(
                                ASN1Block::GeneralizedTime(start, d),
                                bb,
                            ) && o + enc_block(bb).len() == end as int by {
                                assert(bb is GeneralizedTime);
                                crate::laws::lemma_gen_round_trip(bb->GeneralizedTime_1);
                            }
                        }
                        Ok(ASN1Block::GeneralizedTime(start, d))
                    },
                    None => {
                        proof {
                            assert forall|bb: ASN1Block|
                                #[trigger] carries(s, o, limitg, bb) implies false by {
                                assert(bb is GeneralizedTime);
                                crate::laws::lemma_gen_round_trip(bb->GeneralizedTime_1);
                            }
                        }
                        Err(
                            ASN1DecodeErr::InvalidDateValue(
                                match utf8_to_string(content.as_slice()) {
                                    Some(st) => st,
                                    None => String::new(),
                                },
                            ),
                        )
                    },
                }
            },
            Some(28) => {
                let content = copy_range(i, *index, end);
                *index = end;
                match utf8_to_string(content.as_slice()) {
                    Some(st) => {
                        proof {
                            assert forall|bb: ASN1Block|
                                #[trigger] carries(s, o, limitg, bb) implies sem_eq(
                                ASN1Block::UniversalString(start, st),
                                bb,
                            ) && o + enc_block(bb).len() == end as int by {
                                assert(bb is UniversalString);
                                crate::laws::lemma_string_body_round_trip(bb->UniversalString_1@);
                            }
                        }
                        Ok(ASN1Block::UniversalString(start, st))
                    },
                    None => {
                        proof {
                            assert forall|bb: ASN1Block|
                                #[trigger] carries(s, o, limitg, bb) implies false by {
                                assert(bb is UniversalString);
                                crate::laws::lemma_string_body_round_trip(bb->UniversalString_1@);
                            }
                        }
                        Err(ASN1DecodeErr::UTF8DecodeFailure)
                    },
                }
            },
            Some(30) => {
                let content = copy_range(i, *index, end);
                *index = end;
                match utf8_to_string(content.as_slice()) {
                    Some(st) => {
                        proof {
                            assert forall|bb: ASN1Block|
                                #[trigger] carries(s, o, limitg, bb) implies sem_eq(
                                ASN1Block::BMPString(start, st),
                                bb,
                            ) && o + enc_block(bb).len() == end as int by {
                                assert(bb is BMPString);
                                crate::laws::lemma_string_body_round_trip(bb->BMPString_1@);
                            }
                        }
                        Ok(ASN1Block::BMPString(start, st))
                    },
                    None => {
                        proof {
                            assert forall|bb: ASN1Block|
                                #[trigger] carries(s, o, limitg, bb) implies false by {
                                assert(bb is BMPString);
                                crate::laws::lemma_string_body_round_trip(bb->BMPString_1@);
                            }
                        }
                        Err(ASN1DecodeErr::UTF8DecodeFailure)
                    },
                }
            },
            _ => {
                let content = copy_range(i, *index, end);
                proof {
                    assert forall|bb: ASN1Block| #[trigger] carries(s, o, limitg, bb) implies sem_eq(
                        ASN1Block::Unknown(cls, false, start, tagno, content),
                        bb,
                    ) && o + enc_block(bb).len() == end as int by {
                        assert(bb is Unknown);
                    }
                }
                *index = end;
                Ok(ASN1Block::Unknown(cls, false, start, tagno, content))
            },
        }
    } else {
        let content = copy_range(i, *index, end);
        proof {
            assert forall|bb: ASN1Block| #[trigger] carries(s, o, limitg, bb) implies sem_eq(
                ASN1Block::Unknown(cls, false, start, tagno, content),
                bb,
            ) && o + enc_block(bb).len() == end as int by {
                assert(bb is Unknown);
            }
        }
        *index = end;
        Ok(ASN1Block::Unknown(cls, false, start, tagno, content))
    }
}

/// Decode blocks from the cursor until the content region ends; on a region
/// that carries a list of reproducible well-formed blocks, the result is
/// that list, payload for payload.
#[verifier::rlimit(100)]
fn decode_children(i: &[u8], index: &mut usize, end: usize) -> (r: Result<
    Vec<ASN1Block>,
    ASN1DecodeErr,
>)
    requires
        *old(index) <= end <= i@.len(),
    ensures
        r is Ok ==> *final(index) == end,
        r matches Err(e) ==> e != ASN1DecodeErr::EmptyBuffer,
        forall|bs: Seq<ASN1Block>|
            #[trigger] children_carry(i@, *old(index) as int, end as int, bs) ==> (r matches Ok(v)
                && sem_eq_children(v@, bs)),
    decreases end - *index, 1int,
{
    let ghost s = i@;
    let ghost o = *old(index) as int;
    let mut children: Vec<ASN1Block> = Vec::new();
    while *index < end
        invariant
            o == *old(index) as int,
            *old(index) <= *index,
            *index <= end <= i@.len(),
            s == i@,
            forall|bs: Seq<ASN1Block>|
                #[trigger] children_carry(s, o, end as int, bs) ==> {
                    &&& children@.len() <= bs.len()
                    &&& sem_eq_children(children@, bs.take(children@.len() as int))
                    &&& *index as int == o + enc_blocks(bs, 0).len() - enc_blocks(
                        bs,
                        children@.len() as int,
                    ).len()
                },
        decreases end - *index,
    {
        let ghost k = children@.len() as int;
        let ghost p0 = *index as int;
        proof {
            assert forall|bs: Seq<ASN1Block>|
                #[trigger] children_carry(s, o, end as int, bs) implies k < bs.len() && carries(
                s,
                p0,
                end as int,
                bs[k],
            ) && enc_blocks(bs, k).len() == enc_block(bs[k]).len() + enc_blocks(bs, k + 1).len() by {
                assert(enc_blocks(bs, bs.len() as int).len() == 0);
                if k < bs.len() {
                    crate::laws::lemma_enc_blocks_slice(bs, 0, k, s, o);
                    assert(s.subrange(p0, p0 + enc_block(bs[k]).len()) == enc_block(bs[k]));
                }
            }
        }
        let child = match decode_block(i, index, end) {
            Ok(c) => c,
            Err(e) => {
                proof {
                    assert forall|bs: Seq<ASN1Block>|
                        #[trigger] children_carry(s, o, end as int, bs) implies false by {}
                }
                return Err(e);
            },
        };
        children.push(child);
        proof {
            assert forall|bs: Seq<ASN1Block>|
                #[trigger] children_carry(s, o, end as int, bs) implies {
                &&& children@.len() <= bs.len()
                &&& sem_eq_children(children@, bs.take(children@.len() as int))
                &&& *index as int == o + enc_blocks(bs, 0).len() - enc_blocks(
                    bs,
                    children@.len() as int,
                ).len()
            } by {
                assert(carries(s, p0, end as int, bs[k]));
                assert(sem_eq(child, bs[k]));
                assert(bs.take(k + 1) =~= bs.take(k).push(bs[k]));
            }
        }
    }
    proof {
        assert forall|bs: Seq<ASN1Block>|
            #[trigger] children_carry(s, o, end as int, bs) implies sem_eq_children(
            children@,
            bs,
        ) by {
            let k = children@.len() as int;
            assert(enc_blocks(bs, bs.len() as int).len() == 0);
            if k < bs.len() {
                crate::laws::lemma_enc_blocks_slice(bs, 0, k, s, o);
                crate::encode::lemma_enc_block_parts(bs[k]);
            }
            assert(k == bs.len());
            assert(bs.take(k) =~= bs);
        }
    }
    Ok(children)
}

/// Decode a buffer into the blocks it holds, in order, reporting an empty
/// buffer and propagating every block's failure.
///
/// The quantified clause is the tree round trip seen from the outside: a
/// buffer that is exactly the encoding of one reproducible well-formed
/// block decodes to that block, payload for payload.
pub fn from_der(i: &[u8]) -> (r: Result<Vec<ASN1Block>, ASN1DecodeErr>)
    ensures
        i@.len() == 0 <==> (r matches Err(e) && e == ASN1DecodeErr::EmptyBuffer),
        r matches Ok(v) ==> v@.len() >= 1,
        forall|bb: ASN1Block|
            #[trigger] carries(i@, 0, i@.len() as int, bb) && enc_block(bb).len() == i@.len() ==> (
            r matches Ok(v) && v@.len() == 1 && sem_eq(v@[0], bb)),
{
    let ghost s = i@;
    if i.len() == 0 {
        proof {
            assert forall|bb: ASN1Block|
                #[trigger] carries(s, 0, s.len() as int, bb) && enc_block(bb).len()
                == s.len() implies false by {
                crate::encode::lemma_enc_block_parts(bb);
            }
        }
        return Err(ASN1DecodeErr::EmptyBuffer);
    }
    let mut index: usize = 0;
    let mut blocks: Vec<ASN1Block> = Vec::new();
    while index < i.len()
        invariant
            index <= i@.len(),
            index > 0 ==> blocks@.len() >= 1,
            i@.len() > 0,
            s == i@,
            forall|bb: ASN1Block|
                #[trigger] carries(s, 0, s.len() as int, bb) && enc_block(bb).len() == s.len()
                    ==> (index == 0 && blocks@.len() == 0) || (index as int == s.len()
                    && blocks@.len() == 1 && sem_eq(blocks@[0], bb)),
        decreases i@.len() - index,
    {
        let ghost i0 = index as int;
        let b = match decode_block(i, &mut index, i.len()) {
            Ok(b) => b,
            Err(e) => {
                proof {
                    assert forall|bb: ASN1Block|
                        #[trigger] carries(s, 0, s.len() as int, bb) && enc_block(bb).len()
                        == s.len() implies false by {
                        assert(i0 == 0);
                        assert(carries(s, i0, s.len() as int, bb));
                    }
                }
                return Err(e);
            },
        };
        blocks.push(b);
        proof {
            assert forall|bb: ASN1Block|
                #[trigger] carries(s, 0, s.len() as int, bb) && enc_block(bb).len()
                == s.len() implies index as int == s.len() && blocks@.len() == 1 && sem_eq(
                blocks@[0],
                bb,
            ) by {
                assert(i0 == 0);
                assert(carries(s, i0, s.len() as int, bb));
                assert(sem_eq(b, bb));
            }
        }
    }
    Ok(blocks)
}

} // verus!
