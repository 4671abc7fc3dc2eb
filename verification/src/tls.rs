use vstd::prelude::*;

use crate::error::KvError;

verus! {

/// The DER bytes of the first PKCS#8 private key in a PEM string, if any: a
/// function of the text alone.
pub uninterp spec fn pkcs8_of(s: Seq<char>) -> Option<Seq<u8>>;

/// The DER bytes of the first PKCS#1 RSA private key in a PEM string, if any.
pub uninterp spec fn rsa_of(s: Seq<char>) -> Option<Seq<u8>>;

/// Relies on rustls_pemfile::pkcs8_private_keys: parsing is pure computation
/// over the text, yielding the DER of each PKCS#8 key section.
#[verifier::external_body]
fn first_pkcs8_der(pem: &str) -> (r: Option<Vec<u8>>)
    ensures
        r matches Some(d) ==> Some(d@) == pkcs8_of(pem@),
        r is None <==> pkcs8_of(pem@) is None,
{
    let mut cursor = std::io::Cursor::new(pem.as_bytes());
    let first = rustls_pemfile::pkcs8_private_keys(&mut cursor)
        .filter_map(Result::ok)
        .next();
    first.map(|k| k.secret_pkcs8_der().to_vec())
}

/// Relies on rustls_pemfile::rsa_private_keys: parsing is pure computation
/// over the text, yielding the DER of each PKCS#1 key section.
#[verifier::external_body]
fn first_rsa_der(pem: &str) -> (r: Option<Vec<u8>>)
    ensures
        r matches Some(d) ==> Some(d@) == rsa_of(pem@),
        r is None <==> rsa_of(pem@) is None,
{
    let mut cursor = std::io::Cursor::new(pem.as_bytes());
    let first = rustls_pemfile::rsa_private_keys(&mut cursor)
        .filter_map(Result::ok)
        .next();
    first.map(|k| k.secret_pkcs1_der().to_vec())
}

/// The first private key of a PEM file, as DER bytes tagged with its format.
pub enum KeyDer {
    Pkcs8(Vec<u8>),
    Rsa(Vec<u8>),
}

/// Loads the private key a PEM string carries: PKCS#8 is attempted first, and
/// PKCS#1 RSA only when no PKCS#8 key is there; only the first key of the
/// winning format counts.  A file with neither is a certificate-parse error.
pub fn load_key_der(pem: &str) -> (r: Result<KeyDer, KvError>)
    ensures
        r matches Ok(KeyDer::Pkcs8(d)) ==> Some(d@) == pkcs8_of(pem@),
        r matches Ok(KeyDer::Rsa(d)) ==> pkcs8_of(pem@) is None && Some(d@) == rsa_of(pem@),
        r is Err <==> pkcs8_of(pem@) is None && rsa_of(pem@) is None,
        r matches Err(e) ==> e matches KvError::CertifcateParseError(..),
{
    if let Some(d) = first_pkcs8_der(pem) {
        return Ok(KeyDer::Pkcs8(d));
    }
    if let Some(d) = first_rsa_der(pem) {
        return Ok(KeyDer::Rsa(d));
    }
    Err(KvError::CertifcateParseError("private", "key"))
}

} // verus!
