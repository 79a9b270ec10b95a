//! ASN.1 object identifiers: an ordered list of arbitrary-precision
//! components with the canonical two-components-in-one-byte prefix encoding.
use vstd::prelude::*;

use crate::bignum::big_eq;
use crate::bignum::big_from_u8;
use crate::bignum::big_gt;
use crate::bignum::big_to_u32;
use crate::bignum::big_to_u64;
use crate::bignum::big_to_u8;
use crate::bignum::big_val;
use crate::encode::b127_enc;
use crate::errors::ASN1DecodeErr;
use crate::errors::ASN1EncodeErr;

verus! {

/// An ASN.1 object identifier: its components, left to right.
///
/// Construction does not validate; the canonical constraints on the first
/// two components are checked when the identifier is encoded.
#[derive(Clone, Debug)]
pub struct OID(pub Vec<num_bigint::BigUint>);

/// The base-128 encodings of the components from position `i` on,
/// concatenated in order.
pub open spec fn oid_tail(cs: Seq<nat>, i: int) -> Seq<u8>
    decreases cs.len() - i,
{
    if i < 0 || i >= cs.len() {
        Seq::empty()
    } else {
        b127_enc(cs[i]) + oid_tail(cs, i + 1)
    }
}

/// Whether a component list meets the canonical constraints: at least two
/// components, the first at most 2, the second within the bound the first
/// allows (175 under 2, 39 under 0 or 1).
pub open spec fn oid_encodable(cs: Seq<nat>) -> bool {
    &&& cs.len() >= 2
    &&& cs[0] <= 2
    &&& cs[1] <= (if cs[0] == 2 {
        175nat
    } else {
        39nat
    })
}

/// The canonical encoding of a component list: the first two components
/// folded into one byte, the rest as base-128 groups.
pub open spec fn oid_enc(cs: Seq<nat>) -> Seq<u8>
    recommends
        oid_encodable(cs),
{
    seq![(40 * cs[0] + cs[1]) as u8] + oid_tail(cs, 2)
}

/// The numbers a list of components holds, in order.
pub open spec fn component_vals(v: Seq<num_bigint::BigUint>) -> Seq<nat> {
    v.map(|k: int, b: num_bigint::BigUint| big_val(b))
}

impl OID {
    /// The numbers this identifier's components hold, in order.
    pub open spec fn components(&self) -> Seq<nat> {
        component_vals(self.0@)
    }

    /// Generate an OID from its component list, left to right.
    pub fn new(x: Vec<num_bigint::BigUint>) -> (r: OID)
        ensures
            r.0 == x,
    {
        OID(x)
    }

    /// The canonical byte encoding of this identifier's components, checking
    /// the constraints on the first two components.
    pub fn as_raw(&self) -> (r: Result<Vec<u8>, ASN1EncodeErr>)
        ensures
            self.components().len() < 2 ==> (r matches Err(e) && e
                == ASN1EncodeErr::ObjectIdentHasTooFewFields),
            self.components().len() >= 2 && self.components()[0] > 2 ==> (r matches Err(e) && e
                == ASN1EncodeErr::ObjectIdentVal1TooLarge),
            self.components().len() >= 2 && self.components()[0] <= 2 && !oid_encodable(
                self.components(),
            ) ==> (r matches Err(e) && e == ASN1EncodeErr::ObjectIdentVal2TooLarge),
            oid_encodable(self.components()) ==> (r matches Ok(v) && v@ == oid_enc(
                self.components(),
            )),
    {
        let ghost cs = self.components();
        if self.0.len() < 2 {
            return Err(ASN1EncodeErr::ObjectIdentHasTooFewFields);
        }
        let v1 = &self.0[0];
        let v2 = &self.0[1];
        let two = big_from_u8(2);

        proof {
            assert(cs[0] == big_val(self.0@[0]));
            assert(cs[1] == big_val(self.0@[1]));
        }

        // first, validate that the first two components meet the canonical
        // constraints
        if big_gt(v1, &two) {
            return Err(ASN1EncodeErr::ObjectIdentVal1TooLarge);
        }

        let bound = if big_eq(v1, &two) {
            big_from_u8(175)
        } else {
            big_from_u8(39)
        };

        if big_gt(v2, &bound) {
            return Err(ASN1EncodeErr::ObjectIdentVal2TooLarge);
        }

        // the following conversions must succeed, based on the validation
        // above
        let value1: u8 = match big_to_u8(v1) {
            Some(x) => x,
            None => {
                proof {
                    assert(false);
                }
                unreached()
            },
        };
        let value2: u8 = match big_to_u8(v2) {
            Some(x) => x,
            None => {
                proof {
                    assert(false);
                }
                unreached()
            },
        };
        let byte1: u8 = value1 * 40 + value2;

        // now we can build all the rest of the body
        let mut body: Vec<u8> = Vec::new();
        body.push(byte1);
        let mut i: usize = 2;
        proof {
            assert(body@ =~= seq![(40 * cs[0] + cs[1]) as u8]);
        }
        while i < self.0.len()
            invariant
                2 <= i <= self.0@.len(),
                cs == self.components(),
                cs.len() == self.0@.len(),
                oid_enc(cs) == body@ + oid_tail(cs, i as int),
            decreases self.0@.len() - i,
        {
            let ghost b0 = body@;
            let mut local = crate::encode::base127(&self.0[i]);
            body.append(&mut local);
            proof {
                assert(cs[i as int] == big_val(self.0@[i as int]));
                assert(oid_tail(cs, i as int) == b127_enc(cs[i as int]) + oid_tail(cs, i + 1));
                assert(b0 + (b127_enc(cs[i as int]) + oid_tail(cs, i + 1)) =~= (b0 + b127_enc(
                    cs[i as int],
                )) + oid_tail(cs, i + 1));
            }
            i = i + 1;
        }
        proof {
            assert(oid_tail(cs, cs.len() as int) =~= Seq::<u8>::empty());
            assert(body@ + Seq::<u8>::empty() =~= body@);
        }
        Ok(body)
    }

    /// Project every component into a `u64`, failing with an overflow the
    /// first time one does not fit, without partial results.
    pub fn as_vec(&self) -> (r: Result<Vec<u64>, ASN1DecodeErr>)
        ensures
            r is Ok <==> (forall|k: int|
                0 <= k < self.components().len() ==> self.components()[k] <= u64::MAX),
            r matches Ok(v) ==> v@.len() == self.components().len() && (forall|k: int|
                0 <= k < self.components().len() ==> v@[k] as nat == self.components()[k]),
            r matches Err(e) ==> e == ASN1DecodeErr::Overflow,
    {
        let ghost cs = self.components();
        let mut vec: Vec<u64> = Vec::new();
        let mut i: usize = 0;
        while i < self.0.len()
            invariant
                0 <= i <= self.0@.len(),
                cs == self.components(),
                cs.len() == self.0@.len(),
                vec@.len() == i,
                forall|k: int| 0 <= k < i ==> cs[k] <= u64::MAX && vec@[k] as nat == cs[k],
            decreases self.0@.len() - i,
        {
            proof {
                assert(cs[i as int] == big_val(self.0@[i as int]));
            }
            let ul: u64 = match big_to_u64(&self.0[i]) {
                Some(a) => a,
                None => {
                    return Err(ASN1DecodeErr::Overflow);
                },
            };
            vec.push(ul);
            i = i + 1;
        }
        Ok(vec)
    }

    /// Project every component into a `u8`, failing with an overflow the
    /// first time one does not fit, without partial results.
    pub fn as_vec_u8(&self) -> (r: Result<Vec<u8>, ASN1DecodeErr>)
        ensures
            r is Ok <==> (forall|k: int|
                0 <= k < self.components().len() ==> self.components()[k] <= u8::MAX),
            r matches Ok(v) ==> v@.len() == self.components().len() && (forall|k: int|
                0 <= k < self.components().len() ==> v@[k] as nat == self.components()[k]),
            r matches Err(e) ==> e == ASN1DecodeErr::Overflow,
    {
        let ghost cs = self.components();
        let mut vec: Vec<u8> = Vec::new();
        let mut i: usize = 0;
        while i < self.0.len()
            invariant
                0 <= i <= self.0@.len(),
                cs == self.components(),
                cs.len() == self.0@.len(),
                vec@.len() == i,
                forall|k: int| 0 <= k < i ==> cs[k] <= u8::MAX && vec@[k] as nat == cs[k],
            decreases self.0@.len() - i,
        {
            proof {
                assert(cs[i as int] == big_val(self.0@[i as int]));
            }
            let ul: u8 = match big_to_u8(&self.0[i]) {
                Some(a) => a,
                None => {
                    return Err(ASN1DecodeErr::Overflow);
                },
            };
            vec.push(ul);
            i = i + 1;
        }
        Ok(vec)
    }

    /// Project every component into a `u32`, failing with an overflow the
    /// first time one does not fit, without partial results.
    pub fn as_vec_u32(&self) -> (r: Result<Vec<u32>, ASN1DecodeErr>)
        ensures
            r is Ok <==> (forall|k: int|
                0 <= k < self.components().len() ==> self.components()[k] <= u32::MAX),
            r matches Ok(v) ==> v@.len() == self.components().len() && (forall|k: int|
                0 <= k < self.components().len() ==> v@[k] as nat == self.components()[k]),
            r matches Err(e) ==> e == ASN1DecodeErr::Overflow,
    {
        let ghost cs = self.components();
        let mut vec: Vec<u32> = Vec::new();
        let mut i: usize = 0;
        while i < self.0.len()
            invariant
                0 <= i <= self.0@.len(),
                cs == self.components(),
                cs.len() == self.0@.len(),
                vec@.len() == i,
                forall|k: int| 0 <= k < i ==> cs[k] <= u32::MAX && vec@[k] as nat == cs[k],
            decreases self.0@.len() - i,
        {
            proof {
                assert(cs[i as int] == big_val(self.0@[i as int]));
            }
            let ul: u32 = match big_to_u32(&self.0[i]) {
                Some(a) => a,
                None => {
                    return Err(ASN1DecodeErr::Overflow);
                },
            };
            vec.push(ul);
            i = i + 1;
        }
        Ok(vec)
    }
}

impl PartialEq for OID {
    /// Component-wise, order- and length-sensitive equality.
    fn eq(&self, other: &OID) -> (r: bool) {
        if self.0.len() != other.0.len() {
            return false;
        }
        let mut i: usize = 0;
        while i < self.0.len()
            invariant
                0 <= i <= self.0@.len(),
                self.0@.len() == other.0@.len(),
                forall|k: int| 0 <= k < i ==> big_val(self.0@[k]) == big_val(other.0@[k]),
            decreases self.0@.len() - i,
        {
            if !big_eq(&self.0[i], &other.0[i]) {
                proof {
                    assert(self.components()[i as int] == big_val(self.0@[i as int]));
                    assert(other.components()[i as int] == big_val(other.0@[i as int]));
                }
                return false;
            }
            i = i + 1;
        }
        true
    }
}

impl Eq for OID {

}

impl vstd::std_specs::cmp::PartialEqSpecImpl for OID {
    open spec fn obeys_eq_spec() -> bool {
        true
    }

    open spec fn eq_spec(&self, other: &OID) -> bool {
        self.components().len() == other.components().len() && (forall|k: int|
            0 <= k < self.components().len() ==> self.components()[k] == other.components()[k])
    }
}

} // verus!
