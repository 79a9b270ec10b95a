//! The ASN.1 value model: the class enumeration, the calendar timestamp
//! carried by time blocks, and the recursive block type.
use vstd::prelude::*;

use crate::bignum::big_eq;
use crate::bignum::big_val;
use crate::bignum::bigint_eq;
use crate::bignum::int_val;
use crate::oid::OID;

verus! {

/// An ASN.1 block class: the 2-bit class field of a tag byte.
#[derive(Clone, Copy, Debug, PartialEq, Eq, Structural)]
pub enum ASN1Class {
    Universal,
    Application,
    ContextSpecific,
    Private,
}

/// A calendar timestamp, as carried by `UTCTime` and `GeneralizedTime`
/// blocks: plain calendar fields, year first.
///
/// The codec only moves the encoded digits of a timestamp; it checks the
/// plain field ranges below and leaves finer calendar rules (days per month)
/// to the consumer.
#[derive(Clone, Copy, Debug, PartialEq, Eq, Structural)]
pub struct ASN1DateTime {
    pub year: u16,
    pub month: u8,
    pub day: u8,
    pub hour: u8,
    pub minute: u8,
    pub second: u8,
}

impl ASN1DateTime {
    /// The field ranges every decoded timestamp meets: a four-digit year and
    /// in-range calendar fields.
    pub open spec fn wf(self) -> bool {
        &&& self.year <= 9999
        &&& 1 <= self.month <= 12
        &&& 1 <= self.day <= 31
        &&& self.hour < 24
        &&& self.minute < 60
        &&& self.second < 60
    }
}

/// An ASCII decimal digit.
pub open spec fn is_digit(x: u8) -> bool {
    0x30 <= x <= 0x39
}

/// The number a two-digit group holds.
pub open spec fn d2v(s: Seq<u8>, p: int) -> nat {
    (((s[p] - 0x30) * 10 + (s[p + 1] - 0x30)) % 256) as nat
}

/// The two ASCII digits of `n % 100`, tens first.
pub open spec fn two_digits(n: nat) -> Seq<u8> {
    seq![(0x30 + (n / 10) % 10) as u8, (0x30 + n % 10) as u8]
}

/// The body of a `UTCTime` block: two digits for each of year (modulo the
/// century), month, day, hour, minute and second, then `Z`.
pub open spec fn utc_body(d: ASN1DateTime) -> Seq<u8> {
    two_digits((d.year % 100) as nat) + two_digits(d.month as nat) + two_digits(d.day as nat)
        + two_digits(d.hour as nat) + two_digits(d.minute as nat) + two_digits(d.second as nat)
        + seq![0x5Au8]
}

/// The body of a `GeneralizedTime` block: as `UTCTime`, with all four year
/// digits.
pub open spec fn gen_body(d: ASN1DateTime) -> Seq<u8> {
    two_digits((d.year as nat / 100) % 100) + utc_body(d)
}

/// Whether a byte string is a well-formed `UTCTime` body: twelve digits
/// whose calendar fields are in range, then `Z`.
pub open spec fn utc_valid(s: Seq<u8>) -> bool {
    &&& s.len() == 13
    &&& (forall|k: int| 0 <= k < 12 ==> is_digit(s[k]))
    &&& s[12] == 0x5A
    &&& 1 <= d2v(s, 2) <= 12
    &&& 1 <= d2v(s, 4) <= 31
    &&& d2v(s, 6) < 24
    &&& d2v(s, 8) < 60
    &&& d2v(s, 10) < 60
}

/// Whether a byte string is a well-formed `GeneralizedTime` body: as for
/// `UTCTime`, with two leading century digits.
pub open spec fn gen_valid(s: Seq<u8>) -> bool {
    &&& s.len() == 15
    &&& (forall|k: int| 0 <= k < 14 ==> is_digit(s[k]))
    &&& s[14] == 0x5A
    &&& 1 <= d2v(s, 4) <= 12
    &&& 1 <= d2v(s, 6) <= 31
    &&& d2v(s, 8) < 24
    &&& d2v(s, 10) < 60
    &&& d2v(s, 12) < 60
}

/// The full year a two-digit `UTCTime` year stands for: 2000-2049 below 50,
/// 1950-1999 from 50 on.
pub open spec fn utc_year(yy: nat) -> nat {
    if yy < 50 {
        2000 + yy
    } else {
        1900 + yy
    }
}

/// Append the two ASCII digits of `n % 100`, tens first.
fn push_two_digits(v: &mut Vec<u8>, n: u8)
    ensures
        final(v)@ == old(v)@ + two_digits(n as nat),
{
    v.push(0x30 + (n / 10) % 10);
    v.push(0x30 + n % 10);
}

/// Read the two-digit group at `pos`, or nothing when either byte is not a
/// digit.
fn parse_two_digits(b: &[u8], pos: usize) -> (r: Option<u8>)
    requires
        pos + 2 <= b@.len(),
    ensures
        r is Some <==> is_digit(b@[pos as int]) && is_digit(b@[pos + 1]),
        r matches Some(v) ==> v as nat == d2v(b@, pos as int) && v < 100,
{
    let hi = b[pos];
    let lo = b[pos + 1];
    if 0x30 <= hi && hi <= 0x39 && 0x30 <= lo && lo <= 0x39 {
        Some((hi - 0x30) * 10 + (lo - 0x30))
    } else {
        None
    }
}

impl ASN1DateTime {
    /// Format this timestamp as a `UTCTime` body.
    pub fn to_utc_bytes(&self) -> (r: Vec<u8>)
        ensures
            r@ == utc_body(*self),
    {
        let mut v: Vec<u8> = Vec::new();
        push_two_digits(&mut v, (self.year % 100) as u8);
        push_two_digits(&mut v, self.month);
        push_two_digits(&mut v, self.day);
        push_two_digits(&mut v, self.hour);
        push_two_digits(&mut v, self.minute);
        push_two_digits(&mut v, self.second);
        v.push(0x5A);
        proof {
            assert(v@ =~= utc_body(*self));
        }
        v
    }

    /// Format this timestamp as a `GeneralizedTime` body.
    pub fn to_gen_bytes(&self) -> (r: Vec<u8>)
        ensures
            r@ == gen_body(*self),
    {
        let mut v: Vec<u8> = Vec::new();
        push_two_digits(&mut v, ((self.year / 100) % 100) as u8);
        let mut rest = self.to_utc_bytes();
        v.append(&mut rest);
        proof {
            assert(v@ =~= gen_body(*self));
        }
        v
    }

    /// Read a `UTCTime` body: on a well-formed body, the timestamp whose
    /// fields are the digit groups, the two-digit year pivoted at 50.
    pub fn from_utc_bytes(b: &[u8]) -> (r: Option<ASN1DateTime>)
        ensures
            r is Some <==> utc_valid(b@),
            r matches Some(d) ==> {
                &&& d.wf()
                &&& 1950 <= d.year <= 2049
                &&& d.year as nat == utc_year(d2v(b@, 0))
                &&& d.month as nat == d2v(b@, 2)
                &&& d.day as nat == d2v(b@, 4)
                &&& d.hour as nat == d2v(b@, 6)
                &&& d.minute as nat == d2v(b@, 8)
                &&& d.second as nat == d2v(b@, 10)
            },
    {
        if b.len() != 13 {
            return None;
        }
        if b[12] != 0x5A {
            return None;
        }
        let yy = match parse_two_digits(b, 0) {
            Some(v) => v,
            None => {
                return None;
            },
        };
        let month = match parse_two_digits(b, 2) {
            Some(v) => v,
            None => {
                return None;
            },
        };
        let day = match parse_two_digits(b, 4) {
            Some(v) => v,
            None => {
                return None;
            },
        };
        let hour = match parse_two_digits(b, 6) {
            Some(v) => v,
            None => {
                return None;
            },
        };
        let minute = match parse_two_digits(b, 8) {
            Some(v) => v,
            None => {
                return None;
            },
        };
        let second = match parse_two_digits(b, 10) {
            Some(v) => v,
            None => {
                return None;
            },
        };
        if month < 1 || month > 12 || day < 1 || day > 31 || hour >= 24 || minute >= 60 || second
            >= 60 {
            return None;
        }
        let year: u16 = if yy < 50 {
            2000 + (yy as u16)
        } else {
            1900 + (yy as u16)
        };
        Some(
            ASN1DateTime {
                year,
                month,
                day,
                hour,
                minute,
                second,
            },
        )
    }

    /// Read a `GeneralizedTime` body: on a well-formed body, the timestamp
    /// whose fields are the digit groups, with a four-digit year.
    pub fn from_gen_bytes(b: &[u8]) -> (r: Option<ASN1DateTime>)
        ensures
            r is Some <==> gen_valid(b@),
            r matches Some(d) ==> {
                &&& d.wf()
                &&& d.year as nat == d2v(b@, 0) * 100 + d2v(b@, 2)
                &&& d.month as nat == d2v(b@, 4)
                &&& d.day as nat == d2v(b@, 6)
                &&& d.hour as nat == d2v(b@, 8)
                &&& d.minute as nat == d2v(b@, 10)
                &&& d.second as nat == d2v(b@, 12)
            },
    {
        if b.len() != 15 {
            return None;
        }
        if b[14] != 0x5A {
            return None;
        }
        let cc = match parse_two_digits(b, 0) {
            Some(v) => v,
            None => {
                return None;
            },
        };
        let yy = match parse_two_digits(b, 2) {
            Some(v) => v,
            None => {
                return None;
            },
        };
        let month = match parse_two_digits(b, 4) {
            Some(v) => v,
            None => {
                return None;
            },
        };
        let day = match parse_two_digits(b, 6) {
            Some(v) => v,
            None => {
                return None;
            },
        };
        let hour = match parse_two_digits(b, 8) {
            Some(v) => v,
            None => {
                return None;
            },
        };
        let minute = match parse_two_digits(b, 10) {
            Some(v) => v,
            None => {
                return None;
            },
        };
        let second = match parse_two_digits(b, 12) {
            Some(v) => v,
            None => {
                return None;
            },
        };
        if month < 1 || month > 12 || day < 1 || day > 31 || hour >= 24 || minute >= 60 || second
            >= 60 {
            return None;
        }
        let year: u16 = (cc as u16) * 100 + (yy as u16);
        Some(
            ASN1DateTime {
                year,
                month,
                day,
                hour,
                minute,
                second,
            },
        )
    }
}

/// A primitive block from ASN.1.
///
/// Every variant carries the offset from the beginning of the parsed
/// document as its first (or, for tagged variants, second) field, followed
/// by its payload. The offset is only meaningful during the reading
/// process: it is ignored when blocks are encoded and when they are
/// compared with `==`.
///
/// The class of an `Explicit` block is `Application`, `ContextSpecific` or
/// `Private` by convention; `Unknown` can have any class; every other
/// variant is `Universal`.
#[derive(Debug)]
pub enum ASN1Block {
    Boolean(usize, bool),
    Integer(usize, num_bigint::BigInt),
    BitString(usize, usize, Vec<u8>),
    OctetString(usize, Vec<u8>),
    Null(usize),
    ObjectIdentifier(usize, OID),
    UTF8String(usize, String),
    PrintableString(usize, String),
    TeletexString(usize, String),
    IA5String(usize, String),
    UTCTime(usize, ASN1DateTime),
    GeneralizedTime(usize, ASN1DateTime),
    UniversalString(usize, String),
    BMPString(usize, String),
    Sequence(usize, Vec<ASN1Block>),
    SetOf(usize, Vec<ASN1Block>),
    /// An explicitly tagged block: class, offset, tag and content. Always
    /// constructed.
    Explicit(ASN1Class, usize, num_bigint::BigUint, Box<ASN1Block>),
    /// An unknown block: class, constructed flag, offset, tag and raw
    /// content, preserved verbatim.
    Unknown(ASN1Class, bool, usize, num_bigint::BigUint, Vec<u8>),
}

/// Payload equality of two blocks, the decode-time offsets ignored; blocks
/// of different variants are never equal.
pub open spec fn sem_eq(a: ASN1Block, b: ASN1Block) -> bool
    decreases a,
{
    match (a, b) {
        (ASN1Block::Boolean(_, x), ASN1Block::Boolean(_, y)) => x == y,
        (ASN1Block::Integer(_, x), ASN1Block::Integer(_, y)) => int_val(x) == int_val(y),
        (ASN1Block::BitString(_, n1, b1), ASN1Block::BitString(_, n2, b2)) => n1 == n2 && b1@
            == b2@,
        (ASN1Block::OctetString(_, b1), ASN1Block::OctetString(_, b2)) => b1@ == b2@,
        (ASN1Block::Null(_), ASN1Block::Null(_)) => true,
        (ASN1Block::ObjectIdentifier(_, o1), ASN1Block::ObjectIdentifier(_, o2)) => o1.components()
            == o2.components(),
        (ASN1Block::UTF8String(_, s1), ASN1Block::UTF8String(_, s2)) => s1@ == s2@,
        (ASN1Block::PrintableString(_, s1), ASN1Block::PrintableString(_, s2)) => s1@ == s2@,
        (ASN1Block::TeletexString(_, s1), ASN1Block::TeletexString(_, s2)) => s1@ == s2@,
        (ASN1Block::IA5String(_, s1), ASN1Block::IA5String(_, s2)) => s1@ == s2@,
        (ASN1Block::UTCTime(_, t1), ASN1Block::UTCTime(_, t2)) => t1 == t2,
        (ASN1Block::GeneralizedTime(_, t1), ASN1Block::GeneralizedTime(_, t2)) => t1 == t2,
        (ASN1Block::UniversalString(_, s1), ASN1Block::UniversalString(_, s2)) => s1@ == s2@,
        (ASN1Block::BMPString(_, s1), ASN1Block::BMPString(_, s2)) => s1@ == s2@,
        (ASN1Block::Sequence(_, x1), ASN1Block::Sequence(_, x2)) => sem_eq_children(x1@, x2@),
        (ASN1Block::SetOf(_, x1), ASN1Block::SetOf(_, x2)) => sem_eq_children(x1@, x2@),
        (
            ASN1Block::Explicit(c1, _, t1, bx1),
            ASN1Block::Explicit(c2, _, t2, bx2),
        ) => c1 == c2 && big_val(t1) == big_val(t2) && sem_eq(*bx1, *bx2),
        (
            ASN1Block::Unknown(c1, con1, _, t1, b1),
            ASN1Block::Unknown(c2, con2, _, t2, b2),
        ) => c1 == c2 && con1 == con2 && big_val(t1) == big_val(t2) && b1@ == b2@,
        _ => false,
    }
}

/// Pairwise payload equality of two child lists.
pub open spec fn sem_eq_children(x1: Seq<ASN1Block>, x2: Seq<ASN1Block>) -> bool
    decreases x1,
{
    x1.len() == x2.len() && (forall|k: int| 0 <= k < x1.len() ==> sem_eq(x1[k], x2[k]))
}

impl ASN1Block {
    /// The class a block encodes with: the carried class of an `Explicit`
    /// or `Unknown` block, `Universal` for every other variant.
    pub open spec fn spec_class(&self) -> ASN1Class {
        match *self {
            ASN1Block::Explicit(c, _, _, _) => c,
            ASN1Block::Unknown(c, _, _, _, _) => c,
            _ => ASN1Class::Universal,
        }
    }

    /// The decode-time starting offset a block carries.
    pub open spec fn spec_offset(&self) -> usize {
        match *self {
            ASN1Block::Boolean(o, _) => o,
            ASN1Block::Integer(o, _) => o,
            ASN1Block::BitString(o, _, _) => o,
            ASN1Block::OctetString(o, _) => o,
            ASN1Block::Null(o) => o,
            ASN1Block::ObjectIdentifier(o, _) => o,
            ASN1Block::UTF8String(o, _) => o,
            ASN1Block::PrintableString(o, _) => o,
            ASN1Block::TeletexString(o, _) => o,
            ASN1Block::IA5String(o, _) => o,
            ASN1Block::UTCTime(o, _) => o,
            ASN1Block::GeneralizedTime(o, _) => o,
            ASN1Block::UniversalString(o, _) => o,
            ASN1Block::BMPString(o, _) => o,
            ASN1Block::Sequence(o, _) => o,
            ASN1Block::SetOf(o, _) => o,
            ASN1Block::Explicit(_, o, _, _) => o,
            ASN1Block::Unknown(_, _, o, _, _) => o,
        }
    }

    /// Get the class associated with the given block, regardless of what
    /// kind of block it is.
    pub fn class(&self) -> (r: ASN1Class)
        ensures
            r == self.spec_class(),
    {
        match *self {
            ASN1Block::Boolean(_, _) => ASN1Class::Universal,
            ASN1Block::Integer(_, _) => ASN1Class::Universal,
            ASN1Block::BitString(_, _, _) => ASN1Class::Universal,
            ASN1Block::OctetString(_, _) => ASN1Class::Universal,
            ASN1Block::Null(_) => ASN1Class::Universal,
            ASN1Block::ObjectIdentifier(_, _) => ASN1Class::Universal,
            ASN1Block::UTF8String(_, _) => ASN1Class::Universal,
            ASN1Block::PrintableString(_, _) => ASN1Class::Universal,
            ASN1Block::TeletexString(_, _) => ASN1Class::Universal,
            ASN1Block::IA5String(_, _) => ASN1Class::Universal,
            ASN1Block::UTCTime(_, _) => ASN1Class::Universal,
            ASN1Block::GeneralizedTime(_, _) => ASN1Class::Universal,
            ASN1Block::UniversalString(_, _) => ASN1Class::Universal,
            ASN1Block::BMPString(_, _) => ASN1Class::Universal,
            ASN1Block::Sequence(_, _) => ASN1Class::Universal,
            ASN1Block::SetOf(_, _) => ASN1Class::Universal,
            ASN1Block::Explicit(c, _, _, _) => c,
            ASN1Block::Unknown(c, _, _, _, _) => c,
        }
    }

    /// Get the starting offset associated with the given block, regardless
    /// of what kind of block it is.
    pub fn offset(&self) -> (r: usize)
        ensures
            r == self.spec_offset(),
    {
        match *self {
            ASN1Block::Boolean(o, _) => o,
            ASN1Block::Integer(o, _) => o,
            ASN1Block::BitString(o, _, _) => o,
            ASN1Block::OctetString(o, _) => o,
            ASN1Block::Null(o) => o,
            ASN1Block::ObjectIdentifier(o, _) => o,
            ASN1Block::UTF8String(o, _) => o,
            ASN1Block::PrintableString(o, _) => o,
            ASN1Block::TeletexString(o, _) => o,
            ASN1Block::IA5String(o, _) => o,
            ASN1Block::UTCTime(o, _) => o,
            ASN1Block::GeneralizedTime(o, _) => o,
            ASN1Block::UniversalString(o, _) => o,
            ASN1Block::BMPString(o, _) => o,
            ASN1Block::Sequence(o, _) => o,
            ASN1Block::SetOf(o, _) => o,
            ASN1Block::Explicit(_, o, _, _) => o,
            ASN1Block::Unknown(_, _, o, _, _) => o,
        }
    }
}

/// Byte-vector equality, element by element.
pub(crate) fn bytes_eq(a: &Vec<u8>, b: &Vec<u8>) -> (r: bool)
    ensures
        r == (a@ == b@),
{
    if a.len() != b.len() {
        return false;
    }
    let mut i: usize = 0;
    while i < a.len()
        invariant
            0 <= i <= a@.len(),
            a@.len() == b@.len(),
            forall|k: int| 0 <= k < i ==> a@[k] == b@[k],
        decreases a@.len() - i,
    {
        if a[i] != b[i] {
            return false;
        }
        i = i + 1;
    }
    proof {
        assert(a@ =~= b@);
    }
    true
}

impl PartialEq for ASN1Block {
    /// Payload equality: offsets are ignored; different variants are never
    /// equal.
    fn eq(&self, other: &ASN1Block) -> (r: bool)
        decreases *self,
    {
        match (self, other) {
            (ASN1Block::Boolean(_, a1), ASN1Block::Boolean(_, a2)) => a1 == a2,
            (ASN1Block::Integer(_, a1), ASN1Block::Integer(_, a2)) => bigint_eq(a1, a2),
            (ASN1Block::BitString(_, a1, b1), ASN1Block::BitString(_, a2, b2)) => (a1 == a2)
                && bytes_eq(b1, b2),
            (ASN1Block::OctetString(_, a1), ASN1Block::OctetString(_, a2)) => bytes_eq(a1, a2),
            (ASN1Block::Null(_), ASN1Block::Null(_)) => true,
            (ASN1Block::ObjectIdentifier(_, a1), ASN1Block::ObjectIdentifier(_, a2)) => {
                let r = a1 == a2;
                proof {
                    if r {
                        assert(a1.components() =~= a2.components());
                    }
                }
                r
            },
            (ASN1Block::UTF8String(_, a1), ASN1Block::UTF8String(_, a2)) => *a1 == *a2,
            (ASN1Block::PrintableString(_, a1), ASN1Block::PrintableString(_, a2)) => *a1 == *a2,
            (ASN1Block::TeletexString(_, a1), ASN1Block::TeletexString(_, a2)) => *a1 == *a2,
            (ASN1Block::IA5String(_, a1), ASN1Block::IA5String(_, a2)) => *a1 == *a2,
            (ASN1Block::UTCTime(_, a1), ASN1Block::UTCTime(_, a2)) => a1 == a2,
            (ASN1Block::GeneralizedTime(_, a1), ASN1Block::GeneralizedTime(_, a2)) => a1 == a2,
            (ASN1Block::UniversalString(_, a1), ASN1Block::UniversalString(_, a2)) => *a1 == *a2,
            (ASN1Block::BMPString(_, a1), ASN1Block::BMPString(_, a2)) => *a1 == *a2,
            (ASN1Block::Sequence(_, a1), ASN1Block::Sequence(_, a2)) => blocks_eq(a1, a2),
            (ASN1Block::SetOf(_, a1), ASN1Block::SetOf(_, a2)) => blocks_eq(a1, a2),
            (
                ASN1Block::Explicit(a1, _, b1, c1),
                ASN1Block::Explicit(a2, _, b2, c2),
            ) => (a1 == a2) && big_eq(b1, b2) && (&**c1).eq(&**c2),
            (
                ASN1Block::Unknown(a1, b1, _, c1, d1),
                ASN1Block::Unknown(a2, b2, _, c2, d2),
            ) => (a1 == a2) && (b1 == b2) && big_eq(c1, c2) && bytes_eq(d1, d2),
            _ => false,
        }
    }
}

/// Pairwise payload equality of two child lists, element by element.
pub(crate) fn blocks_eq(a: &Vec<ASN1Block>, b: &Vec<ASN1Block>) -> (r: bool)
    ensures
        r == sem_eq_children(a@, b@),
    decreases a@,
{
    if a.len() != b.len() {
        return false;
    }
    let mut i: usize = 0;
    while i < a.len()
        invariant
            0 <= i <= a@.len(),
            a@.len() == b@.len(),
            forall|k: int| 0 <= k < i ==> sem_eq(a@[k], b@[k]),
        decreases a@.len() - i,
    {
        if !(a[i] == b[i]) {
            return false;
        }
        i = i + 1;
    }
    true
}

impl Eq for ASN1Block {

}

impl vstd::std_specs::cmp::PartialEqSpecImpl for ASN1Block {
    open spec fn obeys_eq_spec() -> bool {
        true
    }

    open spec fn eq_spec(&self, other: &ASN1Block) -> bool {
        sem_eq(*self, *other)
    }
}

} // verus!
