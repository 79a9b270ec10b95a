//! A small ASN.1 BER/DER codec: tag, length, class and base-128 primitives,
//! an object-identifier type, and a recursive block model with a byte-exact
//! encoder and decoder.

pub mod asn1_data_types;
pub mod bignum;
pub mod decode;
pub mod encode;
pub mod errors;
pub mod laws;
pub mod oid;

pub use asn1_data_types::ASN1Block;
pub use asn1_data_types::ASN1Class;
pub use asn1_data_types::ASN1DateTime;
pub use errors::ASN1DecodeErr;
pub use errors::ASN1EncodeErr;
pub use oid::OID;
