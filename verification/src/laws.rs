//! The inversion laws of the primitive layer: what each decoder returns on
//! the bytes the matching encoder produced.
use vstd::prelude::*;
use vstd::layout::size_of;

use crate::asn1_data_types::d2v;
use crate::asn1_data_types::gen_body;
use crate::asn1_data_types::gen_valid;
use crate::asn1_data_types::is_digit;
use crate::asn1_data_types::two_digits;
use crate::asn1_data_types::utc_body;
use crate::asn1_data_types::utc_valid;
use crate::asn1_data_types::utc_year;
use crate::asn1_data_types::ASN1Block;
use crate::asn1_data_types::ASN1Class;
use crate::asn1_data_types::ASN1DateTime;
use crate::bignum::big_val;
use crate::decode::b127_end;
use crate::decode::carries;
use crate::decode::dec_ok;
use crate::decode::oid_head;
use crate::decode::oid_rest;
use crate::decode::b127_val;
use crate::decode::be_val;
use crate::decode::class_of;
use crate::decode::length_post;
use crate::decode::tag_post;
use crate::encode::b127_enc;
use crate::encode::enc_blocks;
use crate::encode::block_body;
use crate::encode::block_constructed;
use crate::encode::block_tag_num;
use crate::encode::enc_block;
use crate::encode::forced_bytes;
use crate::encode::lemma_enc_block_parts;
use crate::encode::wf_block;
use crate::encode::b127_enc_hi;
use crate::encode::be_bytes;
use crate::encode::class_byte;
use crate::encode::len_enc;
use crate::encode::lemma_be_bytes_len;
use crate::encode::lemma_usize_bound;
use crate::encode::tag_enc;
use crate::errors::ASN1DecodeErr;
use crate::oid::oid_enc;
use crate::oid::oid_encodable;
use crate::oid::oid_tail;

verus! {

proof fn lemma_b127_val_snoc(s: Seq<u8>, x: u8)
    ensures
        b127_val(s + seq![x]) == b127_val(s) * 128 + (x % 128) as nat,
{
    assert((s + seq![x]).drop_last() =~= s);
    assert((s + seq![x]).last() == x);
}

proof fn lemma_be_val_snoc(s: Seq<u8>, x: u8)
    ensures
        be_val(s + seq![x]) == be_val(s) * 256 + x as nat,
{
    assert((s + seq![x]).drop_last() =~= s);
    assert((s + seq![x]).last() == x);
}

proof fn lemma_b127_hi_val(m: nat)
    ensures
        b127_val(b127_enc_hi(m)) == m,
        b127_enc_hi(m).len() >= 1,
        forall|k: int| 0 <= k < b127_enc_hi(m).len() ==> b127_enc_hi(m)[k] >= 128,
    decreases m,
{
    if m < 128 {
        lemma_b127_val_snoc(Seq::empty(), (m + 128) as u8);
        assert(Seq::<u8>::empty() + seq![(m + 128) as u8] =~= b127_enc_hi(m));
    } else {
        lemma_b127_hi_val(m / 128);
        lemma_b127_val_snoc(b127_enc_hi(m / 128), (m % 128 + 128) as u8);
    }
}

/// The encoding of `n` holds `n` back: its 7-bit groups accumulate to `n`,
/// it is at least one byte, every byte but the last carries the
/// continuation bit, the last does not, and zero encodes as `0x00`.
/// With the decoder's contract, this is the base-128 round trip.
pub proof fn lemma_base127_round_trip(n: nat)
    ensures
        b127_val(b127_enc(n)) == n,
        b127_enc(n).len() >= 1,
        b127_enc(n).last() < 128,
        forall|k: int| 0 <= k < b127_enc(n).len() - 1 ==> b127_enc(n)[k] >= 128,
        b127_enc(0) == seq![0u8],
{
    assert(b127_enc(0) =~= seq![0u8]);
    if n < 128 {
        lemma_b127_val_snoc(Seq::empty(), n as u8);
        assert(Seq::<u8>::empty() + seq![n as u8] =~= b127_enc(n));
    } else {
        lemma_b127_hi_val(n / 128);
        lemma_b127_val_snoc(b127_enc_hi(n / 128), (n % 128) as u8);
    }
}

proof fn lemma_b127_end_of_shape(s: Seq<u8>, o: int, j: int)
    requires
        0 <= o <= j < s.len(),
        forall|k: int| o <= k < j ==> s[k] >= 128,
        s[j] < 128,
    ensures
        b127_end(s, o) == Some(j + 1),
    decreases j - o,
{
    if o < j {
        lemma_b127_end_of_shape(s, o + 1, j);
    }
}

/// What the base-128 decoder's contract yields on a buffer that carries the
/// encoding of `n` at position `o`: the value `n` back, the cursor just past
/// the encoding.
pub proof fn lemma_base127_decodes(
    n: nat,
    s: Seq<u8>,
    o: int,
    r: Result<num_bigint::BigUint, ASN1DecodeErr>,
    e: int,
)
    requires
        0 <= o,
        o + b127_enc(n).len() <= s.len(),
        s.subrange(o, o + b127_enc(n).len()) == b127_enc(n),
        crate::decode::base127_post(s, o, r, e),
    ensures
        r matches Ok(v) && big_val(v) == n,
        e == o + b127_enc(n).len(),
{
    lemma_base127_round_trip(n);
    let len = b127_enc(n).len() as int;
    assert forall|k: int| o <= k < o + len - 1 implies s[k] >= 128 by {
        assert(s[k] == b127_enc(n)[k - o]);
    }
    assert(s[o + len - 1] == b127_enc(n)[len - 1]);
    lemma_b127_end_of_shape(s, o, o + len - 1);
}

proof fn lemma_be_val_of_bytes(n: nat)
    ensures
        be_val(be_bytes(n)) == n,
    decreases n,
{
    if n > 0 {
        lemma_be_val_of_bytes(n / 256);
        lemma_be_val_snoc(be_bytes(n / 256), (n % 256) as u8);
    }
}

/// The length round trip: short lengths encode as themselves in one byte,
/// 128 encodes as `[0x81, 0x80]`, and in the long form the big-endian bytes
/// accumulate back to the length, within the platform's pointer width.
/// With the decoder's contract, this is the length round trip.
pub proof fn lemma_length_round_trip(n: usize)
    ensures
        n < 128 ==> len_enc(n as nat) == seq![n as u8],
        n >= 128 ==> len_enc(n as nat) == seq![(128 + be_bytes(n as nat).len()) as u8] + be_bytes(
            n as nat,
        ),
        be_val(be_bytes(n as nat)) == n,
        1 <= be_bytes(n as nat).len() <= size_of::<usize>() || n == 0,
        len_enc(128nat) == seq![0x81u8, 0x80u8],
{
    lemma_be_val_of_bytes(n as nat);
    lemma_usize_bound(n);
    lemma_be_bytes_len(n as nat, size_of::<usize>());
    assert(be_bytes(0nat) =~= Seq::<u8>::empty());
    assert(be_bytes(128nat) =~= seq![0x80u8]);
    assert(len_enc(128nat) =~= seq![0x81u8, 0x80u8]);
    if n < 128 {
        assert(len_enc(n as nat) =~= seq![n as u8]);
    }
}

/// What the length decoder's contract yields on a buffer that carries the
/// encoding of `n` at position `o`: the length `n` back, the cursor just
/// past the encoding.
pub proof fn lemma_length_decodes(
    n: usize,
    s: Seq<u8>,
    o: int,
    r: Result<usize, ASN1DecodeErr>,
    e: int,
)
    requires
        0 <= o,
        o + len_enc(n as nat).len() <= s.len(),
        s.subrange(o, o + len_enc(n as nat).len()) == len_enc(n as nat),
        length_post(s, o, r, e),
    ensures
        r matches Ok(l) && l == n,
        e == o + len_enc(n as nat).len(),
{
    lemma_length_round_trip(n);
    let enc = len_enc(n as nat);
    assert(s[o] == enc[0]);
    if n < 128 {
    } else {
        let bl = be_bytes(n as nat).len() as int;
        assert(s[o] == 128 + bl);
        assert(s.subrange(o + 1, o + 1 + bl) =~= enc.subrange(1, 1 + bl));
        assert(enc.subrange(1, 1 + bl) =~= be_bytes(n as nat));
    }
}

/// The tag round trip, stated over the decoder's contract: on a buffer that
/// carries the tag field for `(c, constructed, t)` at position `o`, the
/// decoder returns exactly that triple and leaves the cursor just past the
/// field.
pub proof fn lemma_tag_decodes(
    c: ASN1Class,
    constructed: bool,
    t: nat,
    s: Seq<u8>,
    o: int,
    r: Result<(num_bigint::BigUint, bool, ASN1Class), ASN1DecodeErr>,
    e: int,
)
    requires
        0 <= o,
        o + tag_enc(c, constructed, t).len() <= s.len(),
        s.subrange(o, o + tag_enc(c, constructed, t).len()) == tag_enc(c, constructed, t),
        tag_post(s, o, r, e),
    ensures
        r matches Ok(tr) && big_val(tr.0) == t && tr.1 == constructed && tr.2 == c,
        e == o + tag_enc(c, constructed, t).len(),
{
    let enc = tag_enc(c, constructed, t);
    let cb: nat = class_byte(c) as nat + if constructed {
        32nat
    } else {
        0nat
    };
    assert(s[o] == enc[0]);
    if t < 31 {
        assert(enc[0] == (cb + t) as u8);
        assert(class_of(s[o]) == c);
        assert(s[o] / 32 % 2 == 1 <==> constructed);
        assert((s[o] % 32) as nat == t);
    } else {
        lemma_base127_round_trip(t);
        assert(enc[0] == (cb + 31) as u8);
        assert(class_of(s[o]) == c);
        assert(s[o] / 32 % 2 == 1 <==> constructed);
        assert(s[o] % 32 == 31);
        let bl = b127_enc(t).len() as int;
        assert(s.subrange(o + 1, o + 1 + bl) =~= enc.subrange(1, 1 + bl));
        assert(enc.subrange(1, 1 + bl) =~= b127_enc(t));
        assert forall|k: int| o + 1 <= k < o + bl implies s[k] >= 128 by {
            assert(s[k] == b127_enc(t)[k - (o + 1)]);
        }
        assert(s[o + bl] == b127_enc(t)[bl - 1]);
        lemma_b127_end_of_shape(s, o + 1, o + bl);
    }
}

proof fn lemma_two_digits(n: nat)
    ensures
        two_digits(n).len() == 2,
        is_digit(two_digits(n)[0]),
        is_digit(two_digits(n)[1]),
        n < 100 ==> ((two_digits(n)[0] - 0x30) * 10 + (two_digits(n)[1] - 0x30)) % 256 == n,
{
    if n < 100 {
        assert(n / 10 % 10 == n / 10);
        assert(n / 10 * 10 + n % 10 == n);
    }
}

/// The `UTCTime` round trip: the body formatted from a well-formed
/// timestamp whose year the two-digit form can carry is itself well formed,
/// and its digit groups give every field back, the year through the 50
/// pivot. With the parser's contract, formatting then parsing is the
/// identity on such timestamps.
#[verifier::rlimit(50)]
pub proof fn lemma_utc_round_trip(d: ASN1DateTime)
    requires
        d.wf(),
        1950 <= d.year <= 2049,
    ensures
        utc_valid(utc_body(d)),
        utc_year(d2v(utc_body(d), 0)) == d.year,
        d2v(utc_body(d), 2) == d.month,
        d2v(utc_body(d), 4) == d.day,
        d2v(utc_body(d), 6) == d.hour,
        d2v(utc_body(d), 8) == d.minute,
        d2v(utc_body(d), 10) == d.second,
{
    let s = utc_body(d);
    let yy = (d.year % 100) as nat;
    lemma_two_digits(yy);
    lemma_two_digits(d.month as nat);
    lemma_two_digits(d.day as nat);
    lemma_two_digits(d.hour as nat);
    lemma_two_digits(d.minute as nat);
    lemma_two_digits(d.second as nat);
    assert(s =~= two_digits(yy) + two_digits(d.month as nat) + two_digits(d.day as nat)
        + two_digits(d.hour as nat) + two_digits(d.minute as nat) + two_digits(d.second as nat)
        + seq![0x5Au8]);
    assert(s[0] == two_digits(yy)[0] && s[1] == two_digits(yy)[1]);
    assert(s[2] == two_digits(d.month as nat)[0] && s[3] == two_digits(d.month as nat)[1]);
    assert(s[4] == two_digits(d.day as nat)[0] && s[5] == two_digits(d.day as nat)[1]);
    assert(s[6] == two_digits(d.hour as nat)[0] && s[7] == two_digits(d.hour as nat)[1]);
    assert(s[8] == two_digits(d.minute as nat)[0] && s[9] == two_digits(d.minute as nat)[1]);
    assert(s[10] == two_digits(d.second as nat)[0] && s[11] == two_digits(d.second as nat)[1]);
    assert(d2v(s, 0) == yy);
    assert(d2v(s, 2) == d.month as nat);
    assert(d2v(s, 4) == d.day as nat);
    assert(d2v(s, 6) == d.hour as nat);
    assert(d2v(s, 8) == d.minute as nat);
    assert(d2v(s, 10) == d.second as nat);
    if d.year >= 2000 {
        assert(d.year % 100 == d.year - 2000);
    } else {
        assert(d.year % 100 == d.year - 1900);
    }
}

/// The `GeneralizedTime` round trip: the body formatted from a well-formed
/// timestamp is itself well formed, and its digit groups give every field
/// back, the year from its four digits. With the parser's contract,
/// formatting then parsing is the identity on well-formed timestamps.
#[verifier::rlimit(50)]
pub proof fn lemma_gen_round_trip(d: ASN1DateTime)
    requires
        d.wf(),
    ensures
        gen_valid(gen_body(d)),
        d2v(gen_body(d), 0) * 100 + d2v(gen_body(d), 2) == d.year,
        d2v(gen_body(d), 4) == d.month,
        d2v(gen_body(d), 6) == d.day,
        d2v(gen_body(d), 8) == d.hour,
        d2v(gen_body(d), 10) == d.minute,
        d2v(gen_body(d), 12) == d.second,
{
    let s = gen_body(d);
    let cc = (d.year as nat / 100) % 100;
    let yy = (d.year % 100) as nat;
    lemma_two_digits(cc);
    lemma_two_digits(yy);
    lemma_two_digits(d.month as nat);
    lemma_two_digits(d.day as nat);
    lemma_two_digits(d.hour as nat);
    lemma_two_digits(d.minute as nat);
    lemma_two_digits(d.second as nat);
    assert(s =~= two_digits(cc) + two_digits(yy) + two_digits(d.month as nat) + two_digits(
        d.day as nat,
    ) + two_digits(d.hour as nat) + two_digits(d.minute as nat) + two_digits(d.second as nat)
        + seq![0x5Au8]);
    assert(s[0] == two_digits(cc)[0] && s[1] == two_digits(cc)[1]);
    assert(s[2] == two_digits(yy)[0] && s[3] == two_digits(yy)[1]);
    assert(s[4] == two_digits(d.month as nat)[0] && s[5] == two_digits(d.month as nat)[1]);
    assert(s[6] == two_digits(d.day as nat)[0] && s[7] == two_digits(d.day as nat)[1]);
    assert(s[8] == two_digits(d.hour as nat)[0] && s[9] == two_digits(d.hour as nat)[1]);
    assert(s[10] == two_digits(d.minute as nat)[0] && s[11] == two_digits(d.minute as nat)[1]);
    assert(s[12] == two_digits(d.second as nat)[0] && s[13] == two_digits(d.second as nat)[1]);
    assert(d2v(s, 0) == cc);
    assert(d2v(s, 2) == yy);
    assert(d.year as nat / 100 < 100);
    assert(cc == d.year as nat / 100);
    assert(d.year as nat / 100 * 100 + d.year as nat % 100 == d.year as nat);
    assert(d2v(s, 4) == d.month as nat);
    assert(d2v(s, 6) == d.day as nat);
    assert(d2v(s, 8) == d.hour as nat);
    assert(d2v(s, 10) == d.minute as nat);
    assert(d2v(s, 12) == d.second as nat);
}

proof fn lemma_oid_tail_decodes(cs: Seq<nat>, i: int, s: Seq<u8>, o: int)
    requires
        2 <= i <= cs.len(),
        0 <= o,
        s.len() == o + oid_tail(cs, i).len(),
        s.subrange(o, s.len() as int) == oid_tail(cs, i),
    ensures
        oid_rest(s, o) == Some(cs.skip(i)),
    decreases cs.len() - i,
{
    if i == cs.len() {
        assert(cs.skip(i) =~= Seq::<nat>::empty());
    } else {
        let blen = b127_enc(cs[i]).len() as int;
        lemma_base127_round_trip(cs[i]);
        assert(oid_tail(cs, i) == b127_enc(cs[i]) + oid_tail(cs, i + 1));
        assert forall|k: int| o <= k < o + blen implies s[k] == b127_enc(cs[i])[k - o] by {
            assert(s[k] == s.subrange(o, s.len() as int)[k - o]);
        }
        assert forall|k: int| o <= k < o + blen - 1 implies s[k] >= 128 by {}
        assert(s[o + blen - 1] < 128);
        lemma_b127_end_of_shape(s, o, o + blen - 1);
        assert(b127_end(s, o) == Some(o + blen));
        assert(s.subrange(o, o + blen) =~= b127_enc(cs[i]));
        assert(b127_val(s.subrange(o, o + blen)) == cs[i]);
        assert forall|k: int| o + blen <= k < s.len() implies s[k] == oid_tail(cs, i + 1)[k - o
            - blen] by {
            assert(s[k] == s.subrange(o, s.len() as int)[k - o]);
        }
        assert(s.subrange(o + blen, s.len() as int) =~= oid_tail(cs, i + 1));
        lemma_oid_tail_decodes(cs, i + 1, s, o + blen);
        assert(seq![cs[i]] + cs.skip(i + 1) =~= cs.skip(i));
    }
}

/// The object-identifier round trip: on an encodable component list, the
/// canonical encoding starts with the byte that folds the first two
/// components, that byte gives both back, and the remaining bytes read back
/// as the remaining components. With `as_raw`'s and `oid_from_raw`'s
/// contracts, encoding an identifier and decoding the bytes yields the same
/// component list.
pub proof fn lemma_oid_round_trip(cs: Seq<nat>)
    requires
        oid_encodable(cs),
    ensures
        oid_enc(cs).len() >= 1,
        oid_head(oid_enc(cs)[0]).0 == cs[0],
        oid_head(oid_enc(cs)[0]).1 == cs[1],
        oid_rest(oid_enc(cs), 1) == Some(cs.skip(2)),
        seq![cs[0], cs[1]] + cs.skip(2) == cs,
{
    let s = oid_enc(cs);
    let b1 = (40 * cs[0] + cs[1]) as u8;
    assert(40 * cs[0] + cs[1] <= 255);
    assert(s[0] == b1);
    if cs[0] < 2 {
        assert(cs[1] <= 39);
        assert(b1 < 80);
        assert((b1 / 40) as nat == cs[0]);
        assert((b1 % 40) as nat == cs[1]);
    } else {
        assert(b1 >= 80);
        assert((b1 - 80) as nat == cs[1]);
    }
    assert(s.subrange(1, s.len() as int) =~= oid_tail(cs, 2));
    lemma_oid_tail_decodes(cs, 2, s, 1);
    assert(seq![cs[0], cs[1]] + cs.skip(2) =~= cs);
}

proof fn lemma_b127_no_terminator(s: Seq<u8>, o: int)
    requires
        0 <= o,
        forall|k: int| o <= k < s.len() ==> s[k] >= 128,
    ensures
        b127_end(s, o) is None,
    decreases s.len() - o,
{
    if o < s.len() {
        lemma_b127_no_terminator(s, o + 1);
    }
}

/// Truncating a base-128 encoding leaves no terminator byte, so the
/// decoder's contract forces an incomplete-buffer failure on any strict
/// prefix.
pub proof fn lemma_base127_incomplete(
    n: nat,
    m: int,
    s: Seq<u8>,
    r: Result<num_bigint::BigUint, ASN1DecodeErr>,
    e: int,
)
    requires
        0 <= m < b127_enc(n).len(),
        s == b127_enc(n).take(m),
        crate::decode::base127_post(s, 0, r, e),
    ensures
        r matches Err(err) && err == ASN1DecodeErr::Incomplete,
{
    lemma_base127_round_trip(n);
    assert forall|k: int| 0 <= k < s.len() implies s[k] >= 128 by {
        assert(s[k] == b127_enc(n)[k]);
    }
    lemma_b127_no_terminator(s, 0);
}

/// Truncating a length field leaves fewer bytes than its count byte
/// declares, so the decoder's contract forces an incomplete-buffer failure
/// on any strict prefix.
pub proof fn lemma_length_incomplete(
    n: usize,
    m: int,
    s: Seq<u8>,
    r: Result<usize, ASN1DecodeErr>,
    e: int,
)
    requires
        0 <= m < len_enc(n as nat).len(),
        s == len_enc(n as nat).take(m),
        length_post(s, 0, r, e),
    ensures
        r matches Err(err) && err == ASN1DecodeErr::Incomplete,
{
    lemma_length_round_trip(n);
    if m > 0 {
        assert(s[0] == len_enc(n as nat)[0]);
        assert(n >= 128);
        let bl = be_bytes(n as nat).len() as int;
        assert(s[0] == 128 + bl);
        assert(s.len() == m < 1 + bl);
    }
}

/// Truncating a tag field cuts its base-128 continuation before the
/// terminator, so the decoder's contract forces an incomplete-buffer
/// failure on any strict prefix.
pub proof fn lemma_tag_incomplete(
    c: ASN1Class,
    constructed: bool,
    t: nat,
    m: int,
    s: Seq<u8>,
    r: Result<(num_bigint::BigUint, bool, ASN1Class), ASN1DecodeErr>,
    e: int,
)
    requires
        0 <= m < tag_enc(c, constructed, t).len(),
        s == tag_enc(c, constructed, t).take(m),
        tag_post(s, 0, r, e),
    ensures
        r matches Err(err) && err == ASN1DecodeErr::Incomplete,
{
    let enc = tag_enc(c, constructed, t);
    let cb: nat = class_byte(c) as nat + if constructed {
        32nat
    } else {
        0nat
    };
    if m > 0 {
        assert(t >= 31);
        lemma_base127_round_trip(t);
        assert(s[0] == enc[0]);
        assert(enc[0] == (cb + 31) as u8);
        assert(s[0] % 32 == 31);
        assert forall|k: int| 1 <= k < s.len() implies s[k] >= 128 by {
            assert(s[k] == enc[k]);
            assert(enc[k] == b127_enc(t)[k - 1]);
        }
        lemma_b127_no_terminator(s, 1);
    }
}

/// The string body round trip: a text's UTF-8 bytes are valid UTF-8 and
/// decode back to the same characters. With the string encoder's and the
/// string reader's contracts, encoding then decoding a string block is the
/// identity.
pub proof fn lemma_string_body_round_trip(s: Seq<char>)
    ensures
        vstd::utf8::valid_utf8(vstd::utf8::encode_utf8(s)),
        vstd::utf8::decode_utf8(vstd::utf8::encode_utf8(s)) == s,
{
    vstd::utf8::encode_utf8_valid_utf8(s);
    vstd::utf8::encode_utf8_decode_utf8(s);
}

/// On ASCII text, forcing one byte per character agrees with UTF-8, so the
/// round trip above extends to the single-byte string subtypes as long as
/// their text is ASCII.
pub proof fn lemma_forced_ascii_body(s: Seq<char>)
    requires
        vstd::utf8::is_ascii_chars(s),
    ensures
        forced_bytes(s) == vstd::utf8::encode_utf8(s),
{
    vstd::utf8::is_ascii_chars_encode_utf8(s);
    vstd::utf8::is_ascii_chars_nat_bound(s);
    assert forall|i: int| 0 <= i < s.len() implies forced_bytes(s)[i] == vstd::utf8::encode_utf8(
        s,
    )[i] by {
        assert(s[i] as u8 == vstd::utf8::encode_utf8(s)[i]);
        assert((s[i] as u32) < 128);
    }
    assert(forced_bytes(s) =~= vstd::utf8::encode_utf8(s));
}

/// Splitting a known subrange of a buffer at a concatenation boundary.
pub proof fn lemma_subrange_split(s: Seq<u8>, o: int, a: Seq<u8>, b: Seq<u8>)
    requires
        0 <= o,
        o + a.len() + b.len() <= s.len(),
        s.subrange(o, o + a.len() + b.len()) == a + b,
    ensures
        s.subrange(o, o + a.len()) == a,
        s.subrange(o + a.len(), o + a.len() + b.len()) == b,
{
    assert forall|k: int| o <= k < o + a.len() + b.len() implies s[k] == (a + b)[k - o] by {
        assert(s[k] == s.subrange(o, o + a.len() + b.len())[k - o]);
    }
    assert(s.subrange(o, o + a.len()) =~= a);
    assert(s.subrange(o + a.len(), o + a.len() + b.len()) =~= b);
}

/// On a buffer that carries a block's encoding at `o`, the tag decoder's
/// contract yields the block's class, constructed flag and tag number, and
/// leaves the length field and body next.
pub proof fn lemma_block_header_tag(
    bb: ASN1Block,
    s: Seq<u8>,
    o: int,
    rt: Result<(num_bigint::BigUint, bool, ASN1Class), ASN1DecodeErr>,
    et: int,
)
    requires
        0 <= o,
        o + enc_block(bb).len() <= s.len(),
        s.subrange(o, o + enc_block(bb).len()) == enc_block(bb),
        tag_post(s, o, rt, et),
    ensures
        rt matches Ok(t) && big_val(t.0) == block_tag_num(bb) && t.1 == block_constructed(bb)
            && t.2 == bb.spec_class(),
        et == o + tag_enc(bb.spec_class(), block_constructed(bb), block_tag_num(bb)).len(),
        et + len_enc(block_body(bb).len()).len() + block_body(bb).len() == o + enc_block(
            bb,
        ).len(),
        s.subrange(et, o + enc_block(bb).len()) == len_enc(block_body(bb).len()) + block_body(bb),
{
    lemma_enc_block_parts(bb);
    let tl = tag_enc(bb.spec_class(), block_constructed(bb), block_tag_num(bb));
    let rest = len_enc(block_body(bb).len()) + block_body(bb);
    assert(enc_block(bb) =~= tl + rest);
    lemma_subrange_split(s, o, tl, rest);
    lemma_tag_decodes(bb.spec_class(), block_constructed(bb), block_tag_num(bb), s, o, rt, et);
}

/// After the tag field, the length decoder's contract yields exactly the
/// body's length, leaving the cursor at the body.
pub proof fn lemma_block_header_len(
    bb: ASN1Block,
    s: Seq<u8>,
    o: int,
    et: int,
    rl: Result<usize, ASN1DecodeErr>,
    el: int,
)
    requires
        0 <= o <= et,
        s.len() <= usize::MAX,
        o + enc_block(bb).len() <= s.len(),
        et + len_enc(block_body(bb).len()).len() + block_body(bb).len() == o + enc_block(
            bb,
        ).len(),
        s.subrange(et, o + enc_block(bb).len()) == len_enc(block_body(bb).len()) + block_body(bb),
        length_post(s, et, rl, el),
    ensures
        rl matches Ok(l) && l == block_body(bb).len(),
        el + block_body(bb).len() == o + enc_block(bb).len(),
        s.subrange(el, o + enc_block(bb).len()) == block_body(bb),
{
    let bl = block_body(bb).len();
    lemma_subrange_split(s, et, len_enc(bl), block_body(bb));
    assert(len_enc((bl as usize) as nat) == len_enc(bl));
    lemma_length_decodes(bl as usize, s, et, rl, el);
}

/// Within a buffer region holding the encodings of the blocks from `j` on,
/// the encoding of block `k` sits at its position, and the suffix lengths
/// nest.
pub proof fn lemma_enc_blocks_slice(bs: Seq<ASN1Block>, j: int, k: int, s: Seq<u8>, q: int)
    requires
        0 <= j <= k < bs.len(),
        0 <= q,
        q + enc_blocks(bs, j).len() <= s.len(),
        s.subrange(q, q + enc_blocks(bs, j).len()) == enc_blocks(bs, j),
    ensures
        enc_blocks(bs, k).len() == enc_block(bs[k]).len() + enc_blocks(bs, k + 1).len(),
        enc_blocks(bs, k).len() <= enc_blocks(bs, j).len(),
        s.subrange(
            q + enc_blocks(bs, j).len() - enc_blocks(bs, k).len(),
            q + enc_blocks(bs, j).len() - enc_blocks(bs, k + 1).len(),
        ) == enc_block(bs[k]),
    decreases k - j,
{
    assert(enc_blocks(bs, j) == enc_block(bs[j]) + enc_blocks(bs, j + 1));
    lemma_subrange_split(s, q, enc_block(bs[j]), enc_blocks(bs, j + 1));
    if j == k {
    } else {
        lemma_enc_blocks_slice(bs, j + 1, k, s, q + enc_block(bs[j]).len());
    }
}

/// The block-tree round trip: the bytes the encoder promises for a
/// well-formed, decoder-reproducible block are exactly a buffer that
/// carries that block, so the decoder's own contract returns a block with
/// the same payload. With `to_der`'s and `from_der`'s contracts, decoding
/// an encoded tree yields an equal tree, offsets ignored.
pub proof fn lemma_block_round_trip(bb: ASN1Block, bytes: Seq<u8>)
    requires
        wf_block(bb),
        dec_ok(bb),
        bytes == enc_block(bb),
        bytes.len() <= usize::MAX,
    ensures
        carries(bytes, 0, bytes.len() as int, bb),
        enc_block(bb).len() == bytes.len(),
{
    assert(bytes.subrange(0, bytes.len() as int) =~= bytes);
}

} // verus!
